use crate::error::{res_view, DecodeError, DecodeErrorView, Result};
use crate::journal::{journal_spec, parse_journal_segment};
use crate::manifest::{manifest_spec, parse_manifest_segment};
use crate::model::{
    empty_archive_view, journals_view, merge_view, pages_view, rule_sets_view, strings_view,
    windows_view, CanopyArchive, CanopyArchiveView,
};
use crate::numtext::dec_chars;
use crate::page::{page_segment_spec, parse_page_segment};
use crate::reader::{
    checksum32, checksum_spec, read_bytes_spec, read_u16_spec, read_u32_spec, read_u8_spec,
    read_var_usize_spec, utf8_spec, utf8_to_string, Reader,
};
use crate::rules::{parse_rules_segment, rules_spec};
use crate::schedule::{parse_schedule_segment, schedule_spec};
use crate::session::{
    fresh_decoder, has_stream_magic, lemma_longest, lemma_push_within, longest, push_spec, seqs_total, within,
    StreamDecoder, StreamDecoderView,
};
use crate::text::{parse_text_archive, text_archive_spec};
use crate::topology::{parse_topology_segment, topology_spec};
use vstd::prelude::*;

verus! {

/// The kinds of segment a binary archive holds.
#[derive(Debug, Clone, Copy, PartialEq, Eq, Structural)]
pub enum SegmentKind {
    Manifest,
    Topology,
    Schedule,
    Page,
    Rules,
    Journal,
    Note,
}

/// The segment kind a byte codes (1 to 7).
pub open spec fn segment_kind_of(b: u8) -> Option<SegmentKind> {
    if b == 1 {
        Some(SegmentKind::Manifest)
    } else if b == 2 {
        Some(SegmentKind::Topology)
    } else if b == 3 {
        Some(SegmentKind::Schedule)
    } else if b == 4 {
        Some(SegmentKind::Page)
    } else if b == 5 {
        Some(SegmentKind::Rules)
    } else if b == 6 {
        Some(SegmentKind::Journal)
    } else if b == 7 {
        Some(SegmentKind::Note)
    } else {
        None
    }
}

impl SegmentKind {
    fn from_byte(byte: u8) -> (r: Result<Self>)
        ensures
            match segment_kind_of(byte) {
                Some(k) => r == Ok::<SegmentKind, DecodeError>(k),
                None => r == Err::<SegmentKind, DecodeError>(DecodeError::UnknownSegment(byte)),
            },
    {
        match byte {
            1 => Ok(Self::Manifest),
            2 => Ok(Self::Topology),
            3 => Ok(Self::Schedule),
            4 => Ok(Self::Page),
            5 => Ok(Self::Rules),
            6 => Ok(Self::Journal),
            7 => Ok(Self::Note),
            other => Err(DecodeError::UnknownSegment(other)),
        }
    }
}

/// The archive after a segment of kind `kind` with payload `p`: a manifest replaces the
/// manifest, a note is added, every other segment extends its list.
pub open spec fn apply_segment_spec(a: CanopyArchiveView, kind: SegmentKind, p: Seq<u8>) -> core::result::Result<
    CanopyArchiveView,
    DecodeErrorView,
> {
    match kind {
        SegmentKind::Manifest => match manifest_spec(p) {
            Ok(m) => Ok(CanopyArchiveView { manifest: m, ..a }),
            Err(e) => Err(e@),
        },
        SegmentKind::Topology => match topology_spec(p) {
            Ok(l) => Ok(CanopyArchiveView { links: a.links + l, ..a }),
            Err(e) => Err(e@),
        },
        SegmentKind::Schedule => match schedule_spec(p) {
            Ok(w) => Ok(CanopyArchiveView { windows: a.windows + w, ..a }),
            Err(e) => Err(e@),
        },
        SegmentKind::Page => match page_segment_spec(p) {
            Ok(s) => Ok(CanopyArchiveView { pages: a.pages + s, ..a }),
            Err(e) => Err(e@),
        },
        SegmentKind::Rules => match rules_spec(p) {
            Ok(r) => Ok(CanopyArchiveView { rules: a.rules + r, ..a }),
            Err(e) => Err(e@),
        },
        SegmentKind::Journal => match journal_spec(p) {
            Ok(j) => Ok(CanopyArchiveView { journals: a.journals + j, ..a }),
            Err(e) => Err(e@),
        },
        SegmentKind::Note => if vstd::utf8::valid_utf8(p) {
            Ok(CanopyArchiveView { notes: a.notes.push(vstd::utf8::decode_utf8(p)), ..a })
        } else {
            Err(DecodeErrorView::InvalidUtf8)
        },
    }
}

/// Decodes one segment into `archive`; on an error the archive is left as it was.
pub fn apply_segment(archive: &mut CanopyArchive, kind: SegmentKind, payload: &[u8]) -> (r: Result<()>)
    ensures
        match apply_segment_spec(old(archive)@, kind, payload@) {
            Ok(a) => r is Ok && final(archive)@ == a,
            Err(e) => r matches Err(x) && x@ == e && final(archive)@ == old(archive)@,
        },
{
    let ghost a = archive@;
    match kind {
        SegmentKind::Manifest => {
            archive.manifest = parse_manifest_segment(payload)?;
        },
        SegmentKind::Topology => {
            let mut links = parse_topology_segment(payload)?;
            archive.links.append(&mut links);
        },
        SegmentKind::Schedule => {
            let mut windows = parse_schedule_segment(payload)?;
            let ghost w = windows@;
            archive.windows.append(&mut windows);
            assert(windows_view(archive.windows@) =~= a.windows + windows_view(w));
        },
        SegmentKind::Page => {
            let mut pages = parse_page_segment(payload)?;
            let ghost w = pages@;
            archive.pages.append(&mut pages);
            assert(pages_view(archive.pages@) =~= a.pages + pages_view(w));
        },
        SegmentKind::Rules => {
            let mut rules = parse_rules_segment(payload)?;
            let ghost w = rules@;
            archive.rules.append(&mut rules);
            assert(rule_sets_view(archive.rules@) =~= a.rules + rule_sets_view(w));
        },
        SegmentKind::Journal => {
            let mut journals = parse_journal_segment(payload)?;
            let ghost w = journals@;
            archive.journals.append(&mut journals);
            assert(journals_view(archive.journals@) =~= a.journals + journals_view(w));
        },
        SegmentKind::Note => {
            let note = match utf8_to_string(payload) {
                Some(s) => s,
                None => return Err(DecodeError::InvalidUtf8),
            };
            let ghost before = archive.notes@;
            archive.notes.push(note);
            assert(strings_view(archive.notes@) =~= strings_view(before).push(note@));
        },
    }
    Ok(())
}

/// A segment applied to an archive gives what its parser gives: a manifest segment
/// replaces the manifest with the parsed one; a topology, schedule, page, rules or journal
/// segment appends its parsed items, in order, to the matching list; a note segment adds
/// its text. Every other part of the archive is left as it was, and a payload that does
/// not parse gives the parser's error.
pub proof fn law_apply_segment(a: CanopyArchiveView, kind: SegmentKind, p: Seq<u8>)
    ensures
        kind == SegmentKind::Manifest ==> apply_segment_spec(a, kind, p) == match manifest_spec(p) {
            Ok(m) => Ok(CanopyArchiveView { manifest: m, ..a }),
            Err(e) => Err::<CanopyArchiveView, DecodeErrorView>(e@),
        },
        kind == SegmentKind::Topology ==> apply_segment_spec(a, kind, p) == match topology_spec(p) {
            Ok(l) => Ok(CanopyArchiveView { links: a.links + l, ..a }),
            Err(e) => Err::<CanopyArchiveView, DecodeErrorView>(e@),
        },
        kind == SegmentKind::Schedule ==> apply_segment_spec(a, kind, p) == match schedule_spec(p) {
            Ok(w) => Ok(CanopyArchiveView { windows: a.windows + w, ..a }),
            Err(e) => Err::<CanopyArchiveView, DecodeErrorView>(e@),
        },
        kind == SegmentKind::Page ==> apply_segment_spec(a, kind, p) == match page_segment_spec(p) {
            Ok(s) => Ok(CanopyArchiveView { pages: a.pages + s, ..a }),
            Err(e) => Err::<CanopyArchiveView, DecodeErrorView>(e@),
        },
        kind == SegmentKind::Rules ==> apply_segment_spec(a, kind, p) == match rules_spec(p) {
            Ok(r) => Ok(CanopyArchiveView { rules: a.rules + r, ..a }),
            Err(e) => Err::<CanopyArchiveView, DecodeErrorView>(e@),
        },
        kind == SegmentKind::Journal ==> apply_segment_spec(a, kind, p) == match journal_spec(p) {
            Ok(j) => Ok(CanopyArchiveView { journals: a.journals + j, ..a }),
            Err(e) => Err::<CanopyArchiveView, DecodeErrorView>(e@),
        },
        kind == SegmentKind::Note ==> apply_segment_spec(a, kind, p) == match utf8_spec(p) {
            Ok(t) => Ok(CanopyArchiveView { notes: a.notes.push(t), ..a }),
            Err(e) => Err::<CanopyArchiveView, DecodeErrorView>(e@),
        },
{
}

/// The bytes start with the archive magic `CNPY`.
pub open spec fn has_archive_magic(d: Seq<u8>) -> bool {
    d.len() >= 4 && d[0] == 0x43 && d[1] == 0x4e && d[2] == 0x50 && d[3] == 0x59
}

/// Segments `i..count` of a binary archive, read from `p` into `a`. A segment is a kind
/// byte, flags, a length of at most 8 MiB and the payload, followed by its checksum when
/// flag bit 0 is set; a wrong checksum is an error only when the archive flags have their
/// top bit set.
pub open spec fn segments_spec(
    d: Seq<u8>,
    p: int,
    i: nat,
    count: nat,
    flags: u16,
    a: CanopyArchiveView,
) -> core::result::Result<CanopyArchiveView, DecodeErrorView>
    decreases count - i,
{
    if i >= count {
        Ok(a)
    } else {
        match read_u8_spec(d, p) {
            (Err(e), _) => Err(e@),
            (Ok(kb), p1) => match segment_kind_of(kb) {
                None => Err(DecodeErrorView::UnknownSegment(kb)),
                Some(kind) => match read_u16_spec(d, p1) {
                    (Err(e), _) => Err(e@),
                    (Ok(sf), p2) => match read_var_usize_spec(d, p2) {
                        (Err(e), _) => Err(e@),
                        (Ok(len), p3) => if len > 8 * 1024 * 1024 {
                            Err(DecodeErrorView::SegmentTooLarge { segment: kb, len })
                        } else {
                            match read_bytes_spec(d, p3, len as int) {
                                (Err(e), _) => Err(e@),
                                (Ok(payload), p4) => {
                                    let checked: core::result::Result<int, DecodeErrorView> = if sf & 1 != 0 {
                                        match read_u32_spec(d, p4) {
                                            (Err(e), _) => Err(e@),
                                            (Ok(expected), p5) => if checksum_spec(payload) != expected
                                                && flags & 0x8000 != 0 {
                                                Err(DecodeErrorView::InvalidField("segment checksum"))
                                            } else {
                                                Ok(p5)
                                            },
                                        }
                                    } else {
                                        Ok(p4)
                                    };
                                    match checked {
                                        Err(e) => Err(e),
                                        Ok(q) => match apply_segment_spec(a, kind, payload) {
                                            Err(e) => Err(e),
                                            Ok(b) => segments_spec(d, q, i + 1, count, flags, b),
                                        },
                                    }
                                },
                            }
                        },
                    },
                },
            },
        }
    }
}

/// A binary archive: magic, version (1 to 4), flags, a segment count of at most 4096,
/// then the segments.
pub open spec fn binary_archive_spec(d: Seq<u8>) -> core::result::Result<CanopyArchiveView, DecodeErrorView> {
    match read_bytes_spec(d, 0, 4) {
        (Err(e), _) => Err(e@),
        (Ok(m), p0) => if !has_archive_magic(m) {
            Err(DecodeErrorView::BadMagic)
        } else {
            match read_u8_spec(d, p0) {
                (Err(e), _) => Err(e@),
                (Ok(version), p1) => if version == 0 || version > 4 {
                    Err(DecodeErrorView::InvalidVersion(version))
                } else {
                    match read_u16_spec(d, p1) {
                        (Err(e), _) => Err(e@),
                        (Ok(flags), p2) => match read_var_usize_spec(d, p2) {
                            (Err(e), _) => Err(e@),
                            (Ok(count), p3) => if count > 4096 {
                                Err(DecodeErrorView::InvalidField("segment count"))
                            } else {
                                segments_spec(
                                    d,
                                    p3,
                                    0,
                                    count as nat,
                                    flags,
                                    CanopyArchiveView { flags, ..empty_archive_view(version) },
                                )
                            },
                        },
                    }
                },
            }
        },
    }
}

/// Decodes a binary archive.
pub fn parse_binary_archive(data: &[u8]) -> (r: Result<CanopyArchive>)
    ensures
        res_view(r) == binary_archive_spec(data@),
{
    let ghost d = data@;
    let mut r = Reader::new(data);
    let magic = match r.read_bytes(4) {
        Ok(m) => m,
        Err(e) => return Err(e),
    };
    if !(magic[0] == 0x43 && magic[1] == 0x4e && magic[2] == 0x50 && magic[3] == 0x59) {
        return Err(DecodeError::BadMagic);
    }
    let version = match r.read_u8() {
        Ok(v) => v,
        Err(e) => return Err(e),
    };
    if version == 0 || version > 4 {
        return Err(DecodeError::InvalidVersion(version));
    }
    let flags = match r.read_u16() {
        Ok(v) => v,
        Err(e) => return Err(e),
    };
    let segment_count = match r.read_var_usize() {
        Ok(v) => v,
        Err(e) => return Err(e),
    };
    if segment_count > 4096 {
        return Err(DecodeError::InvalidField("segment count"));
    }
    let mut archive = CanopyArchive::new(version);
    archive.flags = flags;
    let mut i: usize = 0;
    while i < segment_count
        invariant
            i <= segment_count,
            r@.data == d,
            d == data@,
            segments_spec(d, r@.pos, i as nat, segment_count as nat, flags, archive@) == binary_archive_spec(d),
        decreases segment_count - i,
    {
        let kind_byte = match r.read_u8() {
            Ok(v) => v,
            Err(e) => return Err(e),
        };
        let kind = match SegmentKind::from_byte(kind_byte) {
            Ok(k) => k,
            Err(e) => return Err(e),
        };
        let segment_flags = match r.read_u16() {
            Ok(v) => v,
            Err(e) => return Err(e),
        };
        let len = match r.read_var_usize() {
            Ok(v) => v,
            Err(e) => return Err(e),
        };
        if len > 8 * 1024 * 1024 {
            return Err(DecodeError::SegmentTooLarge { segment: kind_byte, len });
        }
        let payload = match r.read_bytes(len) {
            Ok(p) => p,
            Err(e) => return Err(e),
        };
        if segment_flags & 1 != 0 {
            let expected = match r.read_u32() {
                Ok(v) => v,
                Err(e) => return Err(e),
            };
            if checksum32(payload) != expected && flags & 0x8000 != 0 {
                return Err(DecodeError::InvalidField("segment checksum"));
            }
        }
        match apply_segment(&mut archive, kind, payload) {
            Ok(()) => {},
            Err(e) => return Err(e),
        }
        i = i + 1;
    }
    Ok(archive)
}

/// Feeds `d` from `pos` on to the decoder in chunks of 64 bytes; the first error ends it.
pub open spec fn feed(st: StreamDecoderView, d: Seq<u8>, pos: nat) -> core::result::Result<
    StreamDecoderView,
    DecodeErrorView,
>
    decreases d.len() - pos,
{
    if pos >= d.len() {
        Ok(st)
    } else {
        let end: nat = if d.len() - pos > 64 { pos + 64 } else { d.len() };
        match push_spec(st, d.subrange(pos as int, end as int)) {
            (Err(e), _) => Err(e@),
            (Ok(_), next) => feed(next, d, end),
        }
    }
}

pub proof fn lemma_feed_within(st: StreamDecoderView, d: Seq<u8>, pos: nat)
    requires
        within(st, pos),
        pos <= d.len() <= usize::MAX,
    ensures
        feed(st, d, pos) matches Ok(s) ==> within(s, d.len()),
    decreases d.len() - pos,
{
    if pos < d.len() {
        let end: nat = if d.len() - pos > 64 { pos + 64 } else { d.len() };
        let chunk = d.subrange(pos as int, end as int);
        lemma_push_within(st, chunk, pos);
        lemma_feed_within(push_spec(st, chunk).1, d, end);
    }
}

/// What bounds the reassembled payloads: one more than the longest, or 0 when there are none.
pub open spec fn blobs_measure(s: Seq<Seq<u8>>) -> nat {
    if s.len() == 0 {
        0
    } else {
        longest(s) + 1
    }
}

/// The note kept for a reassembled payload of `n` bytes that did not decode.
pub open spec fn unparsed_note(n: nat) -> Seq<char> {
    "unparsed-stream-"@ + dec_chars(n)
}

/// The reassembled payloads decoded in order and merged into a fresh archive; a payload
/// that does not decode leaves a note.
pub open spec fn finish_fold(blobs: Seq<Seq<u8>>) -> CanopyArchiveView
    decreases blobs_measure(blobs), 1nat, blobs.len(),
{
    if blobs.len() == 0 {
        empty_archive_view(1)
    } else {
        proof {
            lemma_longest(blobs);
        }
        let a = finish_fold(blobs.drop_last());
        let b = blobs.last();
        match parse_archive_spec(b) {
            Ok(next) => merge_view(a, next),
            Err(_) => CanopyArchiveView { notes: a.notes.push(unparsed_note(b.len())), ..a },
        }
    }
}

/// Finishing merges the reassembled payloads, in the order they were completed, into a
/// fresh archive of version 1: each payload that decodes is merged in, each that does not
/// leaves the note `unparsed-stream-` and its length. The result is `IncompleteStream`
/// exactly when that archive has neither a facility nor a note, so a decoder that
/// completed nothing cannot finish.
pub proof fn law_finish(blobs: Seq<Seq<u8>>, b: Seq<u8>, a: CanopyArchiveView)
    ensures
        finish_fold(Seq::<Seq<u8>>::empty()) == empty_archive_view(1),
        finish_fold(blobs.push(b)) == match parse_archive_spec(b) {
            Ok(next) => merge_view(finish_fold(blobs), next),
            Err(_) => CanopyArchiveView {
                notes: finish_fold(blobs).notes.push(unparsed_note(b.len())),
                ..finish_fold(blobs)
            },
        },
        finish_result(a) == if a.manifest.facility_id.len() == 0 && a.notes.len() == 0 {
            Err::<CanopyArchiveView, DecodeErrorView>(DecodeErrorView::IncompleteStream)
        } else {
            Ok(a)
        },
        finish_result(finish_fold(Seq::<Seq<u8>>::empty())) == Err::<CanopyArchiveView, DecodeErrorView>(
            DecodeErrorView::IncompleteStream,
        ),
{
    assert(blobs.push(b).drop_last() =~= blobs);
    assert(blobs.push(b).last() == b);
}

/// A finished stream: an error when it gave neither a facility nor a note.
pub open spec fn finish_result(a: CanopyArchiveView) -> core::result::Result<CanopyArchiveView, DecodeErrorView> {
    if a.manifest.facility_id.len() == 0 && a.notes.len() == 0 {
        Err(DecodeErrorView::IncompleteStream)
    } else {
        Ok(a)
    }
}

/// A stream archive: the bytes fed to a fresh decoder, then the payloads it reassembled.
pub open spec fn stream_archive_spec(d: Seq<u8>) -> core::result::Result<CanopyArchiveView, DecodeErrorView>
    decreases d.len(), 2nat, 0nat,
    when d.len() <= usize::MAX
{
    match feed(fresh_decoder(), d, 0) {
        Err(e) => Err(e),
        Ok(st) => {
            proof {
                assert(seqs_total(Seq::<Seq<u8>>::empty()) == 0);
                lemma_feed_within(fresh_decoder(), d, 0);
                lemma_longest(st.completed);
            }
            finish_result(finish_fold(st.completed))
        },
    }
}

/// An archive in any of the three encodings, told apart by their first bytes.
pub open spec fn parse_archive_spec(d: Seq<u8>) -> core::result::Result<CanopyArchiveView, DecodeErrorView>
    decreases d.len(), 3nat, 0nat,
{
    if has_archive_magic(d) {
        binary_archive_spec(d)
    } else if has_stream_magic(d) {
        stream_archive_spec(d)
    } else {
        text_archive_spec(d)
    }
}

/// Decodes an archive, binary, streamed or text.
pub fn parse_archive(data: &[u8]) -> (r: Result<CanopyArchive>)
    ensures
        res_view(r) == parse_archive_spec(data@),
    decreases data@.len(), 3nat, 0nat,
{
    if data.len() >= 4 && data[0] == 0x43 && data[1] == 0x4e && data[2] == 0x50 && data[3] == 0x59 {
        parse_binary_archive(data)
    } else if data.len() >= 4 && data[0] == 0x43 && data[1] == 0x42 && data[2] == 0x46 && data[3] == 0x52 {
        parse_stream_archive(data)
    } else {
        parse_text_archive(data)
    }
}

/// Decodes a stream archive, fed to a decoder 64 bytes at a time.
pub fn parse_stream_archive(data: &[u8]) -> (r: Result<CanopyArchive>)
    ensures
        res_view(r) == stream_archive_spec(data@),
    decreases data@.len(), 2nat, 0nat,
{
    let ghost d = data@;
    let n = data.len();
    let mut decoder = StreamDecoder::new();
    let mut pos: usize = 0;
    proof {
        assert(seqs_total(Seq::<Seq<u8>>::empty()) == 0);
    }
    while pos < data.len()
        invariant
            pos <= d.len(),
            d == data@,
            n == d.len(),
            feed(decoder@, d, pos as nat) == feed(fresh_decoder(), d, 0),
            within(decoder@, pos as nat),
        decreases d.len() - pos,
    {
        let end = if data.len() - pos > 64 {
            pos + 64
        } else {
            data.len()
        };
        let ghost before = decoder@;
        match decoder.push(&data[pos..end]) {
            Ok(_) => {},
            Err(e) => {
                return Err(e);
            },
        }
        proof {
            lemma_push_within(before, d.subrange(pos as int, end as int), pos as nat);
        }
        pos = end;
    }
    proof {
        lemma_longest(decoder@.completed);
    }
    decoder.finish()
}

} // verus!
