//! Processing of one input record against the run configuration.

use crate::config::Config;
use crate::render::render_line;
use crate::render::spec_render;
use crate::segment::segment_line;
use crate::segment::spec_segments;
use crate::segment::Mode;
use crate::selector::split_at_delim;
use vstd::prelude::*;
use vstd::utf8::valid_utf8;

verus! {

/// What one input record produces.
pub enum LineOutcome {
    /// The rendered output line (possibly empty), to be written followed
    /// by the record terminator.
    Output(String),
    /// The record is fully suppressed: nothing is written for it, not
    /// even a bare terminator.
    Suppressed,
    /// The record's bytes are not well-formed text and the active mode
    /// needs them decoded; the record is reported instead of rendered.
    DecodeFailure,
}

/// The inner join delimiter of a run: Fields mode keeps the output
/// delimiter between the segments of one resolved range, the other modes
/// write them back to back.
pub open spec fn spec_inner_delim(cfg: Config) -> Seq<char> {
    if cfg.mode == Mode::Fields {
        cfg.out_delim@
    } else {
        Seq::<char>::empty()
    }
}

/// The rendered output for a record under `cfg`.
pub open spec fn spec_line_output(cfg: Config, line: Seq<u8>) -> Seq<char> {
    spec_render(
        spec_segments(cfg.mode, line, cfg.field_delim),
        cfg.selectors.deep_view(),
        spec_inner_delim(cfg),
        cfg.out_delim@,
    )
}

/// True when `cfg` suppresses the record: only-delimited is set and the
/// delimiter never occurs, so the record splits into exactly one field.
pub open spec fn spec_suppressed(cfg: Config, line: Seq<u8>) -> bool {
    cfg.mode == Mode::Fields && cfg.only_delimited && split_at_delim(
        line,
        cfg.field_delim,
    ).len() == 1
}

/// Processes one record (terminator already stripped) under `cfg`.
///
/// Exactly the records that must be decoded as characters but are not
/// well-formed text fail to decode, and exactly the records that
/// only-delimited suppresses are suppressed; every other record renders.
pub fn process_line(cfg: &Config, line: &Vec<u8>) -> (r: LineOutcome)
    ensures
        r is DecodeFailure <==> (cfg.mode == Mode::Characters && !valid_utf8(line@)),
        r is Suppressed <==> spec_suppressed(*cfg, line@),
        r matches LineOutcome::Output(s) ==> s@ == spec_line_output(*cfg, line@),
{
    match segment_line(cfg.mode, line, cfg.field_delim) {
        None => LineOutcome::DecodeFailure,
        Some(segments) => {
            proof {
                assert(segments@.len() == segments.deep_view().len());
                if cfg.mode == Mode::Fields {
                    assert(segments.deep_view().len() == split_at_delim(
                        line@,
                        cfg.field_delim,
                    ).len());
                }
            }
            let is_fields = match cfg.mode {
                Mode::Fields => true,
                _ => false,
            };
            if is_fields && cfg.only_delimited && segments.len() == 1 {
                LineOutcome::Suppressed
            } else {
                let inner = if is_fields {
                    cfg.out_delim.as_str()
                } else {
                    ""
                };
                proof {
                    reveal_strlit("");
                    assert(spec_inner_delim(*cfg) =~= inner@);
                }
                let out = render_line(&segments, &cfg.selectors, inner, cfg.out_delim.as_str());
                LineOutcome::Output(out)
            }
        },
    }
}

/// Strips one trailing terminator byte, if present, from a raw record.
pub fn strip_terminator(line: &mut Vec<u8>, terminator: u8)
    ensures
        old(line)@.len() > 0 && old(line)@.last() == terminator ==> final (line)@ == old(
            line,
        )@.drop_last(),
        !(old(line)@.len() > 0 && old(line)@.last() == terminator) ==> final (line)@ == old(line)@,
{
    if line.len() > 0 {
        let last = line[line.len() - 1];
        if last == terminator {
            let _ = line.pop();
        }
    }
}

} // verus!
