//! Line segmentation under the three selection modes.
//!
//! A line of raw bytes becomes an ordered sequence of text segments: one
//! per byte, one per decoded character, or one per delimiter-separated
//! field, depending on the active mode.

use crate::selector::find_first;
use crate::selector::lemma_find_first_spec;
use crate::selector::lemma_split_prepend;
use crate::selector::split_at_delim;
use crate::text::lossy_chars;
use crate::text::lossy_to_string;
use crate::text::push_char;
use crate::text::utf8_to_string;
use vstd::prelude::*;
use vstd::slice::slice_subrange;
use vstd::slice::slice_to_vec;
use vstd::utf8::decode_utf8;
use vstd::utf8::valid_utf8;

verus! {

/// The three mutually exclusive segmentation modes.
#[derive(Clone, Copy, PartialEq, Eq, Structural, Debug)]
pub enum Mode {
    Bytes,
    Characters,
    Fields,
}

/// The character a lone byte renders as: an ASCII byte stands for itself;
/// any other byte is not well-formed text on its own and renders as the
/// replacement character. A multi-byte encoded character therefore shows
/// as several replacement characters when cut byte by byte.
pub open spec fn byte_char(b: u8) -> char {
    if b < 128 {
        b as char
    } else {
        '\u{FFFD}'
    }
}

/// The segments of a line under `mode`: one per byte, one per decoded
/// character, or one per `delim`-separated field (fields decode leniently,
/// so a malformed field still yields a segment).
pub open spec fn spec_segments(mode: Mode, bytes: Seq<u8>, delim: u8) -> Seq<Seq<char>> {
    match mode {
        Mode::Bytes => bytes.map_values(|b: u8| seq![byte_char(b)]),
        Mode::Characters => decode_utf8(bytes).map_values(|c: char| seq![c]),
        Mode::Fields => split_at_delim(bytes, delim).map_values(|f: Seq<u8>| lossy_chars(f)),
    }
}

fn byte_segments(line: &Vec<u8>) -> (r: Vec<String>)
    ensures
        r.deep_view() == line@.map_values(|b: u8| seq![byte_char(b)]),
{
    let mut r: Vec<String> = Vec::new();
    let mut i: usize = 0;
    while i < line.len()
        invariant
            i as int <= line@.len(),
            r.deep_view() == line@.take(i as int).map_values(|b: u8| seq![byte_char(b)]),
        decreases line@.len() - i,
    {
        let ghost old_dv = r.deep_view();
        let b = line[i];
        let mut seg = String::new();
        if b < 128 {
            push_char(&mut seg, b as char);
        } else {
            push_char(&mut seg, '\u{FFFD}');
        }
        r.push(seg);
        proof {
            assert(seg@ =~= seq![byte_char(b)]);
            assert(r.deep_view() =~~= old_dv.push(seg@));
            assert(line@.take(i + 1) =~= line@.take(i as int).push(b));
            assert(r.deep_view() =~~= line@.take(i + 1).map_values(|b: u8| seq![byte_char(b)]));
        }
        i = i + 1;
    }
    proof {
        assert(line@.take(line@.len() as int) =~= line@);
    }
    r
}

fn char_segments(line: &Vec<u8>) -> (r: Option<Vec<String>>)
    ensures
        r is None <==> !valid_utf8(line@),
        r matches Some(v) ==> v.deep_view() == decode_utf8(line@).map_values(|c: char| seq![c]),
{
    match utf8_to_string(line) {
        None => None,
        Some(s) => {
            let n = s.as_str().unicode_len();
            let mut r: Vec<String> = Vec::new();
            let mut i: usize = 0;
            while i < n
                invariant
                    n as nat == s@.len(),
                    s@ == decode_utf8(line@),
                    i as int <= n as int,
                    r.deep_view() == s@.take(i as int).map_values(|c: char| seq![c]),
                decreases n - i,
            {
                let ghost old_dv = r.deep_view();
                let seg = String::from_str(s.as_str().substring_char(i, i + 1));
                r.push(seg);
                proof {
                    assert(seg@ =~= seq![s@[i as int]]);
                    assert(r.deep_view() =~~= old_dv.push(seg@));
                    assert(s@.take(i + 1) =~= s@.take(i as int).push(s@[i as int]));
                    assert(r.deep_view() =~~= s@.take(i + 1).map_values(|c: char| seq![c]));
                }
                i = i + 1;
            }
            proof {
                assert(s@.take(s@.len() as int) =~= s@);
            }
            Some(r)
        },
    }
}

fn split_bytes(line: &Vec<u8>, delim: u8) -> (r: Vec<Vec<u8>>)
    ensures
        r.deep_view() == split_at_delim(line@, delim),
{
    let len = line.len();
    let mut r: Vec<Vec<u8>> = Vec::new();
    let mut start: usize = 0;
    let mut i: usize = 0;
    proof {
        assert(line@.skip(0) =~= line@);
        assert(r.deep_view() =~= Seq::<Seq<u8>>::empty());
        assert(r.deep_view() + split_at_delim(line@, delim) =~~= split_at_delim(line@, delim));
    }
    while i < len
        invariant
            len as nat == line@.len(),
            start as int <= i as int <= len,
            split_at_delim(line@, delim) == r.deep_view() + split_at_delim(
                line@.skip(start as int),
                delim,
            ),
            forall|j: int| start <= j < i ==> line@[j] != delim,
        decreases len - i,
    {
        if line[i] == delim {
            let ghost old_dv = r.deep_view();
            let ghost tail = line@.skip(start as int);
            let piece = slice_to_vec(slice_subrange(line.as_slice(), start, i));
            r.push(piece);
            proof {
                lemma_find_first_spec(tail, delim);
                assert(tail[i - start] == line@[i as int]);
                assert(forall|j: int| 0 <= j < i - start ==> tail[j] == line@[j + start]);
                if find_first(tail, delim) is None {
                    assert(tail[i - start] == delim);
                }
                let i0 = find_first(tail, delim)->0;
                if i0 < i - start {
                    assert(tail[i0] != delim);
                }
                if i0 > i - start {
                    assert(tail[i - start] != delim);
                }
                assert(find_first(tail, delim) == Some(i - start));
                lemma_split_prepend(tail, delim);
                assert(tail.take(i - start) =~= line@.subrange(start as int, i as int));
                assert(tail.skip(i - start + 1) =~= line@.skip(i + 1));
                assert(r.deep_view() =~~= old_dv.push(line@.subrange(start as int, i as int)));
                assert(r.deep_view() + split_at_delim(line@.skip(i + 1), delim) =~~= old_dv + (
                seq![tail.take(i - start)] + split_at_delim(line@.skip(i + 1), delim)));
            }
            start = i + 1;
        }
        i = i + 1;
    }
    let ghost old_dv = r.deep_view();
    let ghost tail = line@.skip(start as int);
    let piece = slice_to_vec(slice_subrange(line.as_slice(), start, len));
    r.push(piece);
    proof {
        lemma_find_first_spec(tail, delim);
        assert(forall|j: int| 0 <= j < tail.len() ==> tail[j] == line@[j + start]);
        if find_first(tail, delim) is Some {
            let i0 = find_first(tail, delim)->0;
            assert(tail[i0] != delim);
        }
        lemma_split_prepend(tail, delim);
        assert(line@.subrange(start as int, len as int) =~= tail);
        assert(r.deep_view() =~~= old_dv.push(tail));
        assert(r.deep_view() =~~= old_dv + seq![tail]);
    }
    r
}

fn field_segments(line: &Vec<u8>, delim: u8) -> (r: Vec<String>)
    ensures
        r.deep_view() == split_at_delim(line@, delim).map_values(|f: Seq<u8>| lossy_chars(f)),
        r@.len() == split_at_delim(line@, delim).len(),
{
    let pieces = split_bytes(line, delim);
    let mut r: Vec<String> = Vec::new();
    let mut j: usize = 0;
    while j < pieces.len()
        invariant
            pieces.deep_view() == split_at_delim(line@, delim),
            j as int <= pieces@.len(),
            pieces.deep_view().len() == pieces@.len(),
            r.deep_view() == pieces.deep_view().take(j as int).map_values(
                |f: Seq<u8>| lossy_chars(f),
            ),
            r@.len() == j as int,
        decreases pieces@.len() - j,
    {
        let ghost old_dv = r.deep_view();
        let seg = lossy_to_string(&pieces[j]);
        r.push(seg);
        proof {
            assert(pieces@[j as int]@ == pieces.deep_view()[j as int]);
            assert(r.deep_view() =~~= old_dv.push(seg@));
            assert(pieces.deep_view().take(j + 1) =~= pieces.deep_view().take(j as int).push(
                pieces.deep_view()[j as int],
            ));
            assert(r.deep_view() =~~= pieces.deep_view().take(j + 1).map_values(
                |f: Seq<u8>| lossy_chars(f),
            ));
        }
        j = j + 1;
    }
    proof {
        assert(pieces.deep_view().take(pieces.deep_view().len() as int) =~= pieces.deep_view());
    }
    r
}

/// Segments one line of raw bytes under `mode`.
///
/// Returns `None` exactly when the line must be decoded as characters and
/// its bytes are not well-formed text; every other line segments.
pub fn segment_line(mode: Mode, line: &Vec<u8>, delim: u8) -> (r: Option<Vec<String>>)
    ensures
        r is None <==> (mode == Mode::Characters && !valid_utf8(line@)),
        r matches Some(v) ==> v.deep_view() == spec_segments(mode, line@, delim),
{
    match mode {
        Mode::Bytes => Some(byte_segments(line)),
        Mode::Characters => char_segments(line),
        Mode::Fields => Some(field_segments(line, delim)),
    }
}

} // verus!
