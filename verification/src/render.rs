//! Reassembly of the selected segments into one output line.
//!
//! Selectors are applied in the order supplied. A selector whose resolved
//! range is empty contributes nothing and does not itself place an outer
//! delimiter; the outer delimiter stands exactly between the outputs of
//! successive non-skipped selectors.

use crate::selector::lemma_resolve_full_range;
use crate::selector::resolve_selector;
use crate::selector::spec_resolve;
use vstd::prelude::*;

verus! {

/// The pieces of `parts` joined with `sep` between neighbours.
pub open spec fn join_segments(parts: Seq<Seq<char>>, sep: Seq<char>) -> Seq<char>
    decreases parts.len(),
{
    if parts.len() == 0 {
        seq![]
    } else if parts.len() == 1 {
        parts[0]
    } else {
        parts[0] + sep + join_segments(parts.drop_first(), sep)
    }
}

/// Joining one more piece appends it after a separator, unless it is the
/// first piece.
pub proof fn lemma_join_push(parts: Seq<Seq<char>>, sep: Seq<char>, x: Seq<char>)
    ensures
        join_segments(parts.push(x), sep) == if parts.len() == 0 {
            x
        } else {
            join_segments(parts, sep) + sep + x
        },
    decreases parts.len(),
{
    if parts.len() == 0 {
        assert(parts.push(x)[0] == x);
        assert(join_segments(parts.push(x), sep) =~= x);
    } else if parts.len() == 1 {
        assert(parts.push(x).drop_first() =~= seq![x]);
        assert(join_segments(seq![x], sep) == x);
        assert(parts.push(x)[0] == parts[0]);
        assert(join_segments(parts.push(x), sep) =~= parts[0] + sep + x);
    } else {
        assert(parts.push(x).drop_first() =~= parts.drop_first().push(x));
        lemma_join_push(parts.drop_first(), sep, x);
        assert(join_segments(parts.push(x), sep) =~= join_segments(parts, sep) + sep + x);
    }
}

/// Output of the selectors still to be applied, `emitted` saying whether
/// an earlier selector already produced output (and hence whether the next
/// output is preceded by the outer delimiter).
pub open spec fn render_from(
    segments: Seq<Seq<char>>,
    selectors: Seq<Seq<char>>,
    inner: Seq<char>,
    outer: Seq<char>,
    emitted: bool,
) -> Seq<char>
    decreases selectors.len(),
{
    if selectors.len() == 0 {
        seq![]
    } else {
        match spec_resolve(selectors[0], segments.len()) {
            None => render_from(segments, selectors.drop_first(), inner, outer, emitted),
            Some(range) => (if emitted {
                outer
            } else {
                seq![]
            }) + join_segments(segments.subrange(range.0 - 1, range.1), inner) + render_from(
                segments,
                selectors.drop_first(),
                inner,
                outer,
                true,
            ),
        }
    }
}

/// The rendered output of one line: each selector's resolved segments
/// joined with the inner delimiter, successive non-skipped selector
/// outputs separated by the outer delimiter.
pub open spec fn spec_render(
    segments: Seq<Seq<char>>,
    selectors: Seq<Seq<char>>,
    inner: Seq<char>,
    outer: Seq<char>,
) -> Seq<char> {
    render_from(segments, selectors, inner, outer, false)
}

/// Applies the selector tokens to the segments of one line and renders
/// the output line.
pub fn render_line(segments: &Vec<String>, selectors: &Vec<String>, inner: &str, outer: &str) -> (r:
    String)
    ensures
        r@ == spec_render(segments.deep_view(), selectors.deep_view(), inner@, outer@),
{
    let ghost segs = segments.deep_view();
    let ghost sels = selectors.deep_view();
    let mut out = String::new();
    let mut emitted = false;
    let mut k: usize = 0;
    proof {
        assert(sels.skip(0) =~= sels);
        assert(out@ + render_from(segs, sels, inner@, outer@, false) =~= spec_render(
            segs,
            sels,
            inner@,
            outer@,
        ));
    }
    while k < selectors.len()
        invariant
            segs == segments.deep_view(),
            sels == selectors.deep_view(),
            sels.len() == selectors@.len(),
            segs.len() == segments@.len(),
            k as int <= selectors@.len(),
            spec_render(segs, sels, inner@, outer@) == out@ + render_from(
                segs,
                sels.skip(k as int),
                inner@,
                outer@,
                emitted,
            ),
        decreases selectors@.len() - k,
    {
        proof {
            assert(sels.skip(k as int)[0] == selectors@[k as int]@);
            assert(sels.skip(k as int).drop_first() =~= sels.skip(k as int + 1));
        }
        let n = segments.len();
        match resolve_selector(selectors[k].as_str(), n) {
            None => {
            },
            Some(range) => {
                let ghost base = out@;
                if emitted {
                    out.append(outer);
                }
                let s = range.0;
                let e = range.1;
                let ghost with_sep = out@;
                proof {
                    assert(segs.subrange(s - 1, s - 1) =~= Seq::<Seq<char>>::empty());
                    assert(out@ =~= with_sep + join_segments(
                        segs.subrange(s - 1, s - 1),
                        inner@,
                    ));
                }
                let mut j: usize = s - 1;
                while j < e
                    invariant
                        segs == segments.deep_view(),
                        segs.len() == segments@.len(),
                        1 <= s as int,
                        s - 1 <= j as int <= e as int,
                        e as int <= segments@.len(),
                        out@ == with_sep + join_segments(segs.subrange(s - 1, j as int), inner@),
                    decreases e - j,
                {
                    let ghost sofar = segs.subrange(s - 1, j as int);
                    if j > s - 1 {
                        out.append(inner);
                    }
                    out.append(segments[j].as_str());
                    proof {
                        assert(segs[j as int] == segments@[j as int]@);
                        assert(segs.subrange(s - 1, j + 1) =~= sofar.push(segs[j as int]));
                        lemma_join_push(sofar, inner@, segs[j as int]);
                        assert(out@ =~= with_sep + join_segments(
                            segs.subrange(s - 1, j + 1),
                            inner@,
                        ));
                    }
                    j = j + 1;
                }
                proof {
                    let piece = join_segments(
                        segs.subrange(s - 1, e as int),
                        inner@,
                    );
                    assert(render_from(segs, sels.skip(k as int), inner@, outer@, emitted) =~= (
                    if emitted {
                        outer@
                    } else {
                        Seq::<char>::empty()
                    }) + piece + render_from(segs, sels.skip(k as int + 1), inner@, outer@, true));
                    assert(out@ + render_from(segs, sels.skip(k as int + 1), inner@, outer@, true)
                        =~= base + render_from(segs, sels.skip(k as int), inner@, outer@, emitted));
                }
                emitted = true;
            },
        }
        k = k + 1;
    }
    proof {
        assert(sels.skip(sels.len() as int).len() == 0);
        assert(out@ =~= spec_render(segs, sels, inner@, outer@));
    }
    out
}

/// Law: a single full-range selector reproduces the line's segments in
/// their original order and join style.
pub proof fn lemma_full_range_identity(segments: Seq<Seq<char>>, inner: Seq<char>, outer: Seq<char>)
    ensures
        spec_render(segments, seq![seq!['1', '-']], inner, outer) == join_segments(
            segments,
            inner,
        ),
{
    let tok = seq!['1', '-'];
    let sels = seq![tok];
    lemma_resolve_full_range(segments.len());
    assert(sels[0] == tok);
    assert(sels.drop_first() =~= Seq::<Seq<char>>::empty());
    assert(render_from(segments, Seq::<Seq<char>>::empty(), inner, outer, true) =~= Seq::<
        char,
    >::empty());
    if segments.len() >= 1 {
        assert(segments.subrange(0, segments.len() as int) =~= segments);
        assert(spec_render(segments, sels, inner, outer) =~= join_segments(segments, inner));
    } else {
        assert(render_from(segments, Seq::<Seq<char>>::empty(), inner, outer, false) =~= Seq::<
            char,
        >::empty());
        assert(spec_render(segments, sels, inner, outer) =~= join_segments(segments, inner));
    }
}

} // verus!
