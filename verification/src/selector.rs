//! Selector tokens and their resolution against a segment count.
//!
//! A selector list such as `"1,3-5,8-"` is split on commas into tokens.
//! Each token names either a single 1-based index (`"5"`) or an inclusive
//! range (`"3-5"`, with either side optionally empty or malformed).
//! Resolution is lenient: a side that does not parse as a positive integer
//! falls back to the nearest boundary (`1` on the left, the segment count
//! on the right), and an end past the segment count is clamped to it.

use vstd::prelude::*;

verus! {

/// True when `c` is an ASCII decimal digit.
pub open spec fn is_digit(c: char) -> bool {
    '0' <= c <= '9'
}

/// Numeric value of an ASCII decimal digit.
pub open spec fn digit_val(c: char) -> int {
    c as int - '0' as int
}

/// True when every character of `s` is an ASCII decimal digit.
pub open spec fn all_digits(s: Seq<char>) -> bool {
    forall|j: int| 0 <= j < s.len() ==> is_digit(#[trigger] s[j])
}

/// Value of a digit string read in base ten.
pub open spec fn digits_val(s: Seq<char>) -> int
    decreases s.len(),
{
    if s.len() == 0 {
        0
    } else {
        digits_val(s.drop_last()) * 10 + digit_val(s.last())
    }
}

/// The digits of a numeral: one optional leading `'+'` sign is stripped.
pub open spec fn numeral_body(s: Seq<char>) -> Seq<char> {
    if s.len() > 0 && s[0] == '+' {
        s.drop_first()
    } else {
        s
    }
}

/// The positive integer a token names, if it names one.
///
/// A token parses when, after stripping one optional `'+'`, it is a
/// non-empty string of ASCII digits whose value fits in `usize` and is at
/// least 1. Anything else (including `"0"`) is left to the lenient
/// boundary fallback of the resolver.
pub open spec fn parse_positive(s: Seq<char>) -> Option<int> {
    let b = numeral_body(s);
    if b.len() > 0 && all_digits(b) && 1 <= digits_val(b) <= usize::MAX as int {
        Some(digits_val(b))
    } else {
        None
    }
}

/// Index of the first occurrence of `d` in `s`, if any.
pub open spec fn find_first<A>(s: Seq<A>, d: A) -> Option<int>
    decreases s.len(),
{
    if s.len() == 0 {
        None
    } else if s[0] == d {
        Some(0)
    } else {
        match find_first(s.drop_first(), d) {
            Some(i) => Some(i + 1),
            None => None,
        }
    }
}

/// Splits `s` on every occurrence of `d`; adjacent delimiters yield empty
/// pieces, and the result always has one piece more than `s` has delimiters.
pub open spec fn split_at_delim<A>(s: Seq<A>, d: A) -> Seq<Seq<A>>
    decreases s.len(),
{
    if s.len() == 0 {
        seq![seq![]]
    } else if s[0] == d {
        seq![seq![]] + split_at_delim(s.drop_first(), d)
    } else {
        let rest = split_at_delim(s.drop_first(), d);
        seq![seq![s[0]] + rest[0]] + rest.drop_first()
    }
}

/// Splitting distributes over the first delimiter: everything before it
/// is the first piece, and the rest of the split follows after it.
pub proof fn lemma_split_prepend<A>(s: Seq<A>, d: A)
    ensures
        match find_first(s, d) {
            Some(i) => split_at_delim(s, d) == seq![s.take(i)] + split_at_delim(s.skip(i + 1), d),
            None => split_at_delim(s, d) == seq![s],
        },
    decreases s.len(),
{
    if s.len() == 0 {
        assert(split_at_delim(s, d) =~~= seq![s]);
    } else if s[0] == d {
        assert(s.skip(1) =~= s.drop_first());
        assert(split_at_delim(s, d) =~~= seq![s.take(0)] + split_at_delim(s.skip(1), d));
    } else {
        lemma_split_prepend(s.drop_first(), d);
        lemma_find_first_spec(s.drop_first(), d);
        let rest = split_at_delim(s.drop_first(), d);
        match find_first(s.drop_first(), d) {
            Some(i2) => {
                assert(rest[0] == s.drop_first().take(i2));
                assert(seq![s[0]] + s.drop_first().take(i2) =~= s.take(i2 + 1));
                assert(rest.drop_first() =~= split_at_delim(s.drop_first().skip(i2 + 1), d));
                assert(s.drop_first().skip(i2 + 1) =~= s.skip(i2 + 2));
                assert(split_at_delim(s, d) =~~= seq![s.take(i2 + 1)] + split_at_delim(
                    s.skip(i2 + 2),
                    d,
                ));
            },
            None => {
                assert(seq![s[0]] + s.drop_first() =~= s);
                assert(rest.drop_first() =~= Seq::<Seq<A>>::empty());
                assert(split_at_delim(s, d) =~~= seq![s]);
            },
        }
    }
}

/// Splits a selector list on commas into its tokens, in the order given.
pub fn split_selectors(list: &str) -> (r: Vec<String>)
    ensures
        r.deep_view() == split_at_delim(list@, ','),
{
    let len = list.unicode_len();
    let mut r: Vec<String> = Vec::new();
    let mut start: usize = 0;
    let mut i: usize = 0;
    proof {
        assert(list@.skip(0) =~= list@);
        assert(r.deep_view() =~= Seq::<Seq<char>>::empty());
        assert(r.deep_view() + split_at_delim(list@, ',') =~~= split_at_delim(list@, ','));
    }
    while i < len
        invariant
            len as nat == list@.len(),
            start as int <= i as int <= len,
            split_at_delim(list@, ',') == r.deep_view() + split_at_delim(
                list@.skip(start as int),
                ',',
            ),
            forall|j: int| start <= j < i ==> list@[j] != ',',
        decreases len - i,
    {
        if list.get_char(i) == ',' {
            let ghost old_dv = r.deep_view();
            let ghost tail = list@.skip(start as int);
            let tok = String::from_str(list.substring_char(start, i));
            r.push(tok);
            proof {
                lemma_find_first_spec(tail, ',');
                assert(tail[i - start] == list@[i as int]);
                assert(forall|j: int| 0 <= j < i - start ==> tail[j] == list@[j + start]);
                if find_first(tail, ',') is None {
                    assert(tail[i - start] == ',');
                }
                let i0 = find_first(tail, ',')->0;
                if i0 < i - start {
                    assert(tail[i0] != ',');
                }
                if i0 > i - start {
                    assert(tail[i - start] != ',');
                }
                assert(find_first(tail, ',') == Some(i - start));
                lemma_split_prepend(tail, ',');
                assert(tail.take(i - start) =~= tok@);
                assert(tail.skip(i - start + 1) =~= list@.skip(i + 1));
                assert(r.deep_view() =~~= old_dv.push(tok@));
                assert(r.deep_view() + split_at_delim(list@.skip(i + 1), ',') =~~= old_dv + (
                seq![tok@] + split_at_delim(list@.skip(i + 1), ',')));
            }
            start = i + 1;
        }
        i = i + 1;
    }
    let ghost old_dv = r.deep_view();
    let ghost tail = list@.skip(start as int);
    let tok = String::from_str(list.substring_char(start, len));
    r.push(tok);
    proof {
        lemma_find_first_spec(tail, ',');
        assert(forall|j: int| 0 <= j < tail.len() ==> tail[j] == list@[j + start]);
        if find_first(tail, ',') is Some {
            let i0 = find_first(tail, ',')->0;
            assert(tail[i0] != ',');
        }
        lemma_split_prepend(tail, ',');
        assert(tok@ =~= tail);
        assert(r.deep_view() =~~= old_dv.push(tok@));
        assert(r.deep_view() =~~= old_dv + seq![tail]);
    }
    r
}

pub proof fn lemma_digits_val_nonneg(s: Seq<char>)
    requires
        all_digits(s),
    ensures
        digits_val(s) >= 0,
    decreases s.len(),
{
    if s.len() > 0 {
        assert(all_digits(s.drop_last())) by {
            assert(forall|j: int|
                0 <= j < s.drop_last().len() ==> #[trigger] s.drop_last()[j] == s[j]);
        }
        lemma_digits_val_nonneg(s.drop_last());
        assert(is_digit(s.last()));
    }
}

/// The value of a digit string never falls below the value of any prefix.
pub proof fn lemma_digits_val_monotone(s: Seq<char>, j: int)
    requires
        all_digits(s),
        0 <= j <= s.len(),
    ensures
        digits_val(s.take(j)) <= digits_val(s),
    decreases s.len() - j,
{
    if j == s.len() {
        assert(s.take(j) =~= s);
    } else {
        assert(s.take(j + 1).drop_last() =~= s.take(j));
        assert(s.take(j + 1).last() == s[j]);
        assert(all_digits(s.take(j))) by {
            assert(forall|k: int| 0 <= k < j ==> #[trigger] s.take(j)[k] == s[k]);
        }
        lemma_digits_val_nonneg(s.take(j));
        assert(is_digit(s[j]));
        assert(digits_val(s.take(j + 1)) == digits_val(s.take(j)) * 10 + digit_val(s[j]));
        lemma_digits_val_monotone(s, j + 1);
    }
}

/// `find_first` returns the index of the first occurrence: the element
/// there is `d` and no earlier element is.
pub proof fn lemma_find_first_spec<A>(s: Seq<A>, d: A)
    ensures
        match find_first(s, d) {
            Some(i) => 0 <= i < s.len() && s[i] == d && (forall|j: int| 0 <= j < i ==> s[j] != d),
            None => forall|j: int| 0 <= j < s.len() ==> s[j] != d,
        },
    decreases s.len(),
{
    if s.len() == 0 {
    } else if s[0] == d {
    } else {
        lemma_find_first_spec(s.drop_first(), d);
        match find_first(s.drop_first(), d) {
            Some(i) => {
                assert(s.drop_first()[i] == s[i + 1]);
                assert forall|j: int| 0 <= j < i + 1 implies s[j] != d by {
                    if j > 0 {
                        assert(s.drop_first()[j - 1] == s[j]);
                    }
                }
            },
            None => {
                assert forall|j: int| 0 <= j < s.len() implies s[j] != d by {
                    if j > 0 {
                        assert(s.drop_first()[j - 1] == s[j]);
                    }
                }
            },
        }
    }
}

/// The requested bounds of a selector token before clamping: the part
/// before the first dash (or the whole token) gives the start, defaulting
/// to 1; the part after the first dash gives the end, defaulting to the
/// segment count `n`; a token without a dash names the single index it
/// parses to.
pub open spec fn resolve_bounds(token: Seq<char>, n: nat) -> (int, int) {
    match find_first(token, '-') {
        Some(i) => {
            let s = match parse_positive(token.take(i)) {
                Some(v) => v,
                None => 1,
            };
            let e = match parse_positive(token.skip(i + 1)) {
                Some(v) => v,
                None => n as int,
            };
            (s, e)
        },
        None => {
            let s = match parse_positive(token) {
                Some(v) => v,
                None => 1,
            };
            (s, s)
        },
    }
}

/// A selector token resolved against a segment count `n`: the clamped
/// inclusive 1-based range, or `None` when the selector contributes no
/// segments. An end past `n` is clamped to `n`; the range is empty when
/// the start exceeds `n` or exceeds the clamped end.
pub open spec fn spec_resolve(token: Seq<char>, n: nat) -> Option<(int, int)> {
    let b = resolve_bounds(token, n);
    let e = if b.1 > n { n as int } else { b.1 };
    if b.0 > n || e < b.0 {
        None
    } else {
        Some((b.0, e))
    }
}

/// Resolves one selector token against the segment count `n` of a line.
///
/// Returns the concrete clamped range, 1-based and inclusive, or `None`
/// when the selector is to be skipped for this line.
pub fn resolve_selector(token: &str, n: usize) -> (r: Option<(usize, usize)>)
    ensures
        r is Some <==> spec_resolve(token@, n as nat) is Some,
        r matches Some(p) ==> spec_resolve(token@, n as nat) == Some((p.0 as int, p.1 as int)),
        r matches Some(p) ==> 1 <= p.0 <= p.1 <= n,
{
    let len = token.unicode_len();
    let mut dash: Option<usize> = None;
    let mut i: usize = 0;
    while i < len
        invariant
            len as nat == token@.len(),
            0 <= i as int <= len,
            match dash {
                Some(k) => k < len && token@[k as int] == '-' && (forall|j: int|
                    0 <= j < k ==> token@[j] != '-'),
                None => forall|j: int| 0 <= j < i ==> token@[j] != '-',
            },
        decreases len - i,
    {
        if dash.is_none() && token.get_char(i) == '-' {
            dash = Some(i);
        }
        i = i + 1;
    }
    proof {
        lemma_find_first_spec(token@, '-');
    }
    let ghost rb = resolve_bounds(token@, n as nat);
    let bounds: (usize, usize) = match dash {
        Some(k) => {
            proof {
                if find_first(token@, '-') is None {
                    assert(token@[k as int] == '-');
                }
                let i0 = find_first(token@, '-')->0;
                if i0 < k as int {
                    assert(token@[i0] != '-');
                }
                if i0 > k as int {
                    assert(token@[k as int] != '-');
                }
                assert(find_first(token@, '-') == Some(k as int));
            }
            let left = token.substring_char(0, k);
            let right = token.substring_char(k + 1, len);
            proof {
                assert(left@ =~= token@.take(k as int));
                assert(right@ =~= token@.skip(k as int + 1));
            }
            let s = match parse_index(left) {
                Some(v) => v,
                None => 1,
            };
            let e = match parse_index(right) {
                Some(v) => v,
                None => n,
            };
            proof {
                assert(rb.0 == s as int && rb.1 == e as int);
            }
            (s, e)
        },
        None => {
            proof {
                if find_first(token@, '-') is Some {
                    let i0 = find_first(token@, '-')->0;
                    assert(token@[i0] == '-');
                }
                assert(find_first(token@, '-') is None);
            }
            let s = match parse_index(token) {
                Some(v) => v,
                None => 1,
            };
            proof {
                assert(rb.0 == s as int && rb.1 == s as int);
            }
            (s, s)
        },
    };
    if bounds.0 > n {
        return None;
    }
    let e = if bounds.1 > n {
        n
    } else {
        bounds.1
    };
    if e < bounds.0 {
        return None;
    }
    Some((bounds.0, e))
}

/// The lenient parse of one selector side: `Some(v)` exactly when the
/// token names a positive integer `v` that fits in `usize`.
pub fn parse_index(token: &str) -> (r: Option<usize>)
    ensures
        r is Some <==> parse_positive(token@) is Some,
        r matches Some(v) ==> parse_positive(token@) == Some(v as int),
{
    let n = token.unicode_len();
    let mut i: usize = 0;
    if n > 0 && token.get_char(0) == '+' {
        i = 1;
    }
    let ghost off = i as int;
    let ghost body = numeral_body(token@);
    proof {
        assert(body =~= token@.skip(off));
    }
    if i >= n {
        return None;
    }
    let mut acc: usize = 0;
    while i < n
        invariant
            n as nat == token@.len(),
            off <= i as int <= n,
            0 <= off <= 1,
            body == numeral_body(token@),
            body =~= token@.skip(off),
            body.len() > 0,
            all_digits(body.take(i - off)),
            acc as int == digits_val(body.take(i - off)),
        decreases n - i,
    {
        let c = token.get_char(i);
        let u = c as u32;
        proof {
            assert(body[i - off] == c);
        }
        if u < 48 || u > 57 {
            proof {
                assert(!is_digit(c));
                assert(!all_digits(body)) by {
                    assert(0 <= i - off < body.len() && !is_digit(body[i - off]));
                }
            }
            return None;
        }
        let d = (u - 48) as usize;
        proof {
            assert(is_digit(c));
            assert(d as int == digit_val(c));
        }
        let next = match acc.checked_mul(10) {
            Some(a) => a.checked_add(d),
            None => None,
        };
        proof {
            assert(body.take(i - off + 1).drop_last() =~= body.take(i - off));
            assert(body.take(i - off + 1).last() == body[i - off]);
            assert(digits_val(body.take(i - off + 1)) == acc as int * 10 + d as int);
        }
        match next {
            Some(v) => {
                acc = v;
            },
            None => {
                proof {
                    if all_digits(body) {
                        lemma_digits_val_monotone(body, i - off + 1);
                        assert(digits_val(body) > usize::MAX as int);
                    }
                }
                return None;
            },
        }
        i = i + 1;
        proof {
            assert(all_digits(body.take(i - off))) by {
                assert(forall|k: int|
                    0 <= k < i - off ==> #[trigger] body.take(i - off)[k] == body[k]);
                assert(forall|k: int|
                    0 <= k < i - 1 - off ==> #[trigger] body.take(i - 1 - off)[k] == body[k]);
            }
        }
    }
    proof {
        assert(body.take(i - off) =~= body);
    }
    if acc == 0 {
        None
    } else {
        Some(acc)
    }
}

/// The token `"1"` parses to the index 1.
pub proof fn lemma_parse_one()
    ensures
        parse_positive(seq!['1']) == Some(1int),
{
    let s = seq!['1'];
    assert(numeral_body(s) == s);
    assert(is_digit(s[0]));
    assert(s.drop_last() =~= Seq::<char>::empty());
    assert(digits_val(Seq::<char>::empty()) == 0);
    assert(digits_val(s) == 1);
}

/// An empty token parses to nothing.
pub proof fn lemma_parse_empty()
    ensures
        parse_positive(Seq::<char>::empty()) is None,
{
    assert(numeral_body(Seq::<char>::empty()).len() == 0);
}

/// The bare full-range token `"1-"` resolves to the whole line: start 1,
/// end equal to the segment count, or the empty marker on a line with no
/// segments.
pub proof fn lemma_resolve_full_range(n: nat)
    ensures
        spec_resolve(seq!['1', '-'], n) == if n >= 1 {
            Some((1int, n as int))
        } else {
            None::<(int, int)>
        },
{
    let tok = seq!['1', '-'];
    assert(tok.drop_first() =~= seq!['-']);
    assert(find_first(seq!['-'], '-') == Some(0int));
    assert(find_first(tok, '-') == Some(1int));
    assert(tok.take(1) =~= seq!['1']);
    assert(tok.skip(2) =~= Seq::<char>::empty());
    lemma_parse_one();
    lemma_parse_empty();
    assert(resolve_bounds(tok, n) == (1int, n as int));
}

/// Law: a range token whose right side does not parse behaves exactly as
/// if the right side were absent; the end falls back to the segment count.
pub proof fn lemma_lenient_right(token: Seq<char>, n: nat, i: int)
    requires
        find_first(token, '-') == Some(i),
        parse_positive(token.skip(i + 1)) is None,
    ensures
        spec_resolve(token, n) == spec_resolve(token.take(i + 1), n),
{
    lemma_find_first_spec(token, '-');
    let t2 = token.take(i + 1);
    lemma_find_first_spec(t2, '-');
    assert(t2[i] == token[i]);
    if find_first(t2, '-') is None {
        assert(t2[i] == '-');
    }
    let i0 = find_first(t2, '-')->0;
    if i0 < i {
        assert(t2[i0] == token[i0]);
        assert(token[i0] != '-');
    }
    assert(find_first(t2, '-') == Some(i));
    assert(t2.take(i) =~= token.take(i));
    assert(t2.skip(i + 1) =~= Seq::<char>::empty());
    lemma_parse_empty();
    assert(resolve_bounds(t2, n) == resolve_bounds(token, n));
}

/// Law: a range token whose left side does not parse behaves exactly as
/// if the left side were `"1"`; the start falls back to the first segment.
pub proof fn lemma_lenient_left(token: Seq<char>, n: nat, i: int)
    requires
        find_first(token, '-') == Some(i),
        parse_positive(token.take(i)) is None,
    ensures
        spec_resolve(token, n) == spec_resolve(seq!['1'] + token.skip(i), n),
{
    lemma_find_first_spec(token, '-');
    let t2 = seq!['1'] + token.skip(i);
    lemma_find_first_spec(t2, '-');
    assert(t2[1] == token[i]);
    if find_first(t2, '-') is None {
        assert(t2[1] == '-');
    }
    let i0 = find_first(t2, '-')->0;
    assert(t2[i0] == '-');
    if i0 == 0 {
        assert(t2[0] == '1');
    }
    if i0 > 1 {
        assert(t2[1] != '-');
    }
    assert(find_first(t2, '-') == Some(1int));
    assert(t2.take(1) =~= seq!['1']);
    assert(t2.skip(2) =~= token.skip(i + 1));
    lemma_parse_one();
    assert(resolve_bounds(t2, n) == resolve_bounds(token, n));
}

} // verus!
