pub mod codec;
pub mod envelope;
pub mod error;
pub mod journal;
pub mod manifest;
pub mod model;
pub mod numtext;
pub mod page;
pub mod query;
pub mod reader;
pub mod rules;
pub mod schedule;
pub mod session;
pub mod store;
pub mod text;
pub mod text_map;
pub mod topology;
pub mod validate;

pub use envelope::{parse_archive, parse_binary_archive, parse_stream_archive};
pub use error::{DecodeError, Result};
pub use model::{CanopyArchive, Device, JournalEntry, Link, RuleSet, SamplePage, ScheduleWindow};
pub use session::{FrameOutcome, StreamDecoder};

use crate::envelope::parse_archive_spec;
use crate::error::{res_view, DecodeErrorView};
use crate::query::{summary_spec, ArchiveSummary, ArchiveSummaryView, QueryPlanner};
use crate::validate::{validate_archive, validate_spec};
use vstd::prelude::*;

verus! {

/// Decodes an archive in any of its encodings.
pub fn parse(data: &[u8]) -> (r: Result<CanopyArchive>)
    ensures
        res_view(r) == parse_archive_spec(data@),
{
    parse_archive(data)
}

/// The summary of the archive `d` decodes to, when it decodes and validates.
pub open spec fn decode_summary_spec(d: Seq<u8>) -> core::result::Result<ArchiveSummaryView, DecodeErrorView> {
    match parse_archive_spec(d) {
        Err(e) => Err(e),
        Ok(a) => match validate_spec(a) {
            Err(e) => Err(e@),
            Ok(_) => Ok(summary_spec(a)),
        },
    }
}

/// Decodes an archive, validates it and summarizes it.
pub fn decode_and_summarize(data: &[u8]) -> (r: Result<ArchiveSummary>)
    ensures
        res_view(r) == decode_summary_spec(data@),
{
    let archive = parse_archive(data)?;
    match validate_archive(&archive) {
        Ok(()) => {},
        Err(e) => return Err(e),
    }
    let mut planner = QueryPlanner::new();
    Ok(planner.summarize(&archive))
}

/// Decoding and summarizing is parsing, then validating, then summarizing: it succeeds
/// exactly when the bytes decode and the archive validates, and then gives the summary a
/// fresh planner makes; otherwise it gives the decoding error, or else the validation error.
pub proof fn law_decode_and_summarize(d: Seq<u8>)
    ensures
        decode_summary_spec(d) is Ok <==> (parse_archive_spec(d) is Ok && validate_spec(
            parse_archive_spec(d)->Ok_0,
        ) is Ok),
        parse_archive_spec(d) matches Err(e) ==> decode_summary_spec(d) == Err::<ArchiveSummaryView, DecodeErrorView>(e),
        parse_archive_spec(d) matches Ok(a) ==> match validate_spec(a) {
            Err(e) => decode_summary_spec(d) == Err::<ArchiveSummaryView, DecodeErrorView>(e@),
            Ok(_) => decode_summary_spec(d) == Ok::<ArchiveSummaryView, DecodeErrorView>(summary_spec(a)),
        },
{
}

} // verus!
