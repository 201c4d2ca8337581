use crate::numtext::{dec_chars, decimal_string};
use vstd::prelude::*;

verus! {

/// Every way in which decoding a gateway archive can fail.
#[derive(Debug, Clone, PartialEq, Eq)]
pub enum DecodeError {
    Truncated { at: usize, needed: usize, available: usize },
    BadMagic,
    InvalidVersion(u8),
    InvalidVarint,
    InvalidUtf8,
    SegmentTooLarge { segment: u8, len: usize },
    UnknownSegment(u8),
    InvalidField(&'static str),
    InvalidText(String),
    InvalidOpcode(u8),
    DepthLimit,
    ArithmeticOverflow,
    DuplicateId(u32),
    MissingReference(u32),
    IncompleteStream,
}

pub type Result<T> = core::result::Result<T, DecodeError>;

/// A decoding error with its text, if any, as characters.
pub enum DecodeErrorView {
    Truncated { at: usize, needed: usize, available: usize },
    BadMagic,
    InvalidVersion(u8),
    InvalidVarint,
    InvalidUtf8,
    SegmentTooLarge { segment: u8, len: usize },
    UnknownSegment(u8),
    InvalidField(&'static str),
    InvalidText(Seq<char>),
    InvalidOpcode(u8),
    DepthLimit,
    ArithmeticOverflow,
    DuplicateId(u32),
    MissingReference(u32),
    IncompleteStream,
}

impl View for DecodeError {
    type V = DecodeErrorView;

    open spec fn view(&self) -> DecodeErrorView {
        match *self {
            DecodeError::Truncated { at, needed, available } => DecodeErrorView::Truncated { at, needed, available },
            DecodeError::BadMagic => DecodeErrorView::BadMagic,
            DecodeError::InvalidVersion(v) => DecodeErrorView::InvalidVersion(v),
            DecodeError::InvalidVarint => DecodeErrorView::InvalidVarint,
            DecodeError::InvalidUtf8 => DecodeErrorView::InvalidUtf8,
            DecodeError::SegmentTooLarge { segment, len } => DecodeErrorView::SegmentTooLarge { segment, len },
            DecodeError::UnknownSegment(t) => DecodeErrorView::UnknownSegment(t),
            DecodeError::InvalidField(name) => DecodeErrorView::InvalidField(name),
            DecodeError::InvalidText(line) => DecodeErrorView::InvalidText(line@),
            DecodeError::InvalidOpcode(op) => DecodeErrorView::InvalidOpcode(op),
            DecodeError::DepthLimit => DecodeErrorView::DepthLimit,
            DecodeError::ArithmeticOverflow => DecodeErrorView::ArithmeticOverflow,
            DecodeError::DuplicateId(id) => DecodeErrorView::DuplicateId(id),
            DecodeError::MissingReference(id) => DecodeErrorView::MissingReference(id),
            DecodeError::IncompleteStream => DecodeErrorView::IncompleteStream,
        }
    }
}

/// A result with both its value and its error taken by their views.
pub open spec fn res_view<T: View>(r: core::result::Result<T, DecodeError>) -> core::result::Result<
    T::V,
    DecodeErrorView,
> {
    match r {
        Ok(v) => Ok(v@),
        Err(e) => Err(e@),
    }
}

/// A spec-level result whose error is taken by its view.
pub open spec fn err_view<T>(r: core::result::Result<T, DecodeError>) -> core::result::Result<
    T,
    DecodeErrorView,
> {
    match r {
        Ok(v) => Ok(v),
        Err(e) => Err(e@),
    }
}

/// The human-readable text of an error.
pub open spec fn message_spec(e: DecodeErrorView) -> Seq<char> {
    match e {
        DecodeErrorView::Truncated { at, needed, available } => "truncated at "@ + dec_chars(at as nat) + ": need "@
            + dec_chars(needed as nat) + ", have "@ + dec_chars(available as nat),
        DecodeErrorView::BadMagic => "bad canopybus magic"@,
        DecodeErrorView::InvalidVersion(v) => "unsupported version "@ + dec_chars(v as nat),
        DecodeErrorView::InvalidVarint => "invalid varint"@,
        DecodeErrorView::InvalidUtf8 => "invalid utf-8"@,
        DecodeErrorView::SegmentTooLarge { segment, len } => "segment "@ + dec_chars(segment as nat) + " too large: "@
            + dec_chars(len as nat),
        DecodeErrorView::UnknownSegment(t) => "unknown segment type "@ + dec_chars(t as nat),
        DecodeErrorView::InvalidField(name) => "invalid field "@ + name@,
        DecodeErrorView::InvalidText(line) => "invalid text line: "@ + line,
        DecodeErrorView::InvalidOpcode(op) => "invalid opcode "@ + dec_chars(op as nat),
        DecodeErrorView::DepthLimit => "depth limit"@,
        DecodeErrorView::ArithmeticOverflow => "arithmetic overflow"@,
        DecodeErrorView::DuplicateId(id) => "duplicate id "@ + dec_chars(id as nat),
        DecodeErrorView::MissingReference(id) => "missing reference "@ + dec_chars(id as nat),
        DecodeErrorView::IncompleteStream => "incomplete stream"@,
    }
}

/// `head` followed by the decimal text of `n`.
fn with_number(head: &str, n: u64) -> (r: String)
    ensures
        r@ == head@ + dec_chars(n as nat),
{
    let mut s = head.to_owned();
    s.append(decimal_string(n).as_str());
    s
}

impl DecodeError {
    /// The human-readable text of the error.
    pub fn message(&self) -> (r: String)
        ensures
            r@ == message_spec(self@),
    {
        match self {
            DecodeError::Truncated { at, needed, available } => {
                let mut s = with_number("truncated at ", *at as u64);
                s.append(with_number(": need ", *needed as u64).as_str());
                s.append(with_number(", have ", *available as u64).as_str());
                s
            },
            DecodeError::BadMagic => "bad canopybus magic".to_owned(),
            DecodeError::InvalidVersion(v) => with_number("unsupported version ", *v as u64),
            DecodeError::InvalidVarint => "invalid varint".to_owned(),
            DecodeError::InvalidUtf8 => "invalid utf-8".to_owned(),
            DecodeError::SegmentTooLarge { segment, len } => {
                let mut s = with_number("segment ", *segment as u64);
                s.append(with_number(" too large: ", *len as u64).as_str());
                s
            },
            DecodeError::UnknownSegment(t) => with_number("unknown segment type ", *t as u64),
            DecodeError::InvalidField(name) => {
                let mut s = "invalid field ".to_owned();
                s.append(name);
                s
            },
            DecodeError::InvalidText(line) => {
                let mut s = "invalid text line: ".to_owned();
                s.append(line.as_str());
                s
            },
            DecodeError::InvalidOpcode(op) => with_number("invalid opcode ", *op as u64),
            DecodeError::DepthLimit => "depth limit".to_owned(),
            DecodeError::ArithmeticOverflow => "arithmetic overflow".to_owned(),
            DecodeError::DuplicateId(id) => with_number("duplicate id ", *id as u64),
            DecodeError::MissingReference(id) => with_number("missing reference ", *id as u64),
            DecodeError::IncompleteStream => "incomplete stream".to_owned(),
        }
    }
}

} // verus!
