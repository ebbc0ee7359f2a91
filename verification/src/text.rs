//! Character-level helpers: whitespace, trimming, field splitting, decimal
//! numbers and the lexicographic order on identifiers.
//!
//! The executable functions work on a window `[lo, hi)` of a character
//! vector, so that a line is decoded once and never copied.

use vstd::prelude::*;

verus! {

/// The characters of a string slice, in order.
pub fn chars_of(s: &str) -> (out: Vec<char>)
    ensures
        out@ == s@,
{
    let mut out: Vec<char> = Vec::new();
    for c in it: s.chars()
        invariant
            out@ == it.seq().take(it.index() as int),
            it.seq() == s@,
    {
        out.push(c);
    }
    out
}

/// White space in the sense of Unicode's `White_Space` property.
pub open spec fn is_space(c: char) -> bool {
    ||| '\u{9}' <= c <= '\u{d}'
    ||| c == ' '
    ||| c == '\u{85}'
    ||| c == '\u{a0}'
    ||| c == '\u{1680}'
    ||| '\u{2000}' <= c <= '\u{200a}'
    ||| c == '\u{2028}'
    ||| c == '\u{2029}'
    ||| c == '\u{202f}'
    ||| c == '\u{205f}'
    ||| c == '\u{3000}'
}

/// Whether `c` is white space.
pub fn is_space_char(c: char) -> (b: bool)
    ensures
        b == is_space(c),
{
    ('\u{9}' <= c && c <= '\u{d}') || c == ' ' || c == '\u{85}' || c == '\u{a0}' || c == '\u{1680}'
        || ('\u{2000}' <= c && c <= '\u{200a}') || c == '\u{2028}' || c == '\u{2029}' || c
        == '\u{202f}' || c == '\u{205f}' || c == '\u{3000}'
}

/// The first index at or after `from` that holds no white space, or the
/// length of `s`.
pub open spec fn skip_spaces(s: Seq<char>, from: int) -> int
    decreases s.len() - from,
{
    if 0 <= from < s.len() && is_space(s[from]) {
        skip_spaces(s, from + 1)
    } else {
        from
    }
}

/// The end of the longest part of `s[..to]` that does not end in white space.
pub open spec fn drop_spaces(s: Seq<char>, to: int) -> int
    decreases to,
{
    if 0 < to <= s.len() && is_space(s[to - 1]) {
        drop_spaces(s, to - 1)
    } else {
        to
    }
}

/// `s` without its leading and trailing white space.
pub open spec fn trim(s: Seq<char>) -> Seq<char> {
    let a = skip_spaces(s, 0);
    let b = drop_spaces(s, s.len() as int);
    if a < b {
        s.subrange(a, b)
    } else {
        Seq::empty()
    }
}

/// The window of `v[lo..hi]` that is left when white space is taken from
/// both ends.
pub fn trim_window(v: &Vec<char>, lo: usize, hi: usize) -> (w: (usize, usize))
    requires
        lo <= hi <= v.len(),
    ensures
        lo <= w.0 <= w.1 <= hi,
        v@.subrange(w.0 as int, w.1 as int) == trim(v@.subrange(lo as int, hi as int)),
{
    let ghost s = v@.subrange(lo as int, hi as int);
    let mut a: usize = lo;
    while a < hi && is_space_char(v[a])
        invariant
            lo <= a <= hi <= v.len(),
            s == v@.subrange(lo as int, hi as int),
            skip_spaces(s, 0) == skip_spaces(s, a - lo),
        decreases hi - a,
    {
        a = a + 1;
    }
    let mut b: usize = hi;
    while b > lo && is_space_char(v[b - 1])
        invariant
            lo <= b <= hi <= v.len(),
            s == v@.subrange(lo as int, hi as int),
            drop_spaces(s, s.len() as int) == drop_spaces(s, b - lo),
        decreases b,
    {
        b = b - 1;
    }
    if a < b {
        assert(v@.subrange(a as int, b as int) =~= s.subrange(a - lo, b - lo));
        (a, b)
    } else {
        assert(v@.subrange(a as int, a as int) =~= Seq::<char>::empty());
        (a, a)
    }
}

/// The first index at or after `from` that holds `sep`, or the length of `s`.
pub open spec fn find_sep(s: Seq<char>, sep: char, from: int) -> int
    decreases s.len() - from,
{
    if from < 0 || from >= s.len() {
        s.len() as int
    } else if s[from] == sep {
        from
    } else {
        find_sep(s, sep, from + 1)
    }
}

/// Where the first occurrence is: no place before it holds `sep`.
pub proof fn lemma_find_sep_bounds(s: Seq<char>, sep: char, from: int)
    requires
        0 <= from <= s.len(),
    ensures
        from <= find_sep(s, sep, from) <= s.len(),
        find_sep(s, sep, from) < s.len() ==> s[find_sep(s, sep, from)] == sep,
        forall|i: int| from <= i < find_sep(s, sep, from) ==> s[i] != sep,
    decreases s.len() - from,
{
    if from < s.len() && s[from] != sep {
        lemma_find_sep_bounds(s, sep, from + 1);
    }
}

/// The pieces of `s` between occurrences of `sep`: one more than there are
/// occurrences, so at least one, and empty where two occurrences touch.
pub open spec fn split(s: Seq<char>, sep: char) -> Seq<Seq<char>>
    decreases s.len(),
{
    let i = find_sep(s, sep, 0);
    if 0 <= i < s.len() {
        seq![s.take(i)] + split(s.skip(i + 1), sep)
    } else {
        seq![s]
    }
}

/// The text that each window cuts out of `v`.
pub open spec fn windows_text(v: Seq<char>, w: Seq<(usize, usize)>) -> Seq<Seq<char>> {
    Seq::new(w.len(), |k: int| v.subrange(w[k].0 as int, w[k].1 as int))
}

/// The first index in `[from, hi)` that holds `sep`, or `hi`.
pub fn find_window(v: &Vec<char>, from: usize, hi: usize, sep: char) -> (end: usize)
    requires
        from <= hi <= v.len(),
    ensures
        from <= end <= hi,
        end - from == find_sep(v@.subrange(from as int, hi as int), sep, 0),
{
    let ghost s = v@.subrange(from as int, hi as int);
    let mut end: usize = from;
    while end < hi && v[end] != sep
        invariant
            from <= end <= hi <= v.len(),
            s == v@.subrange(from as int, hi as int),
            find_sep(s, sep, 0) == find_sep(s, sep, end - from),
        decreases hi - end,
    {
        end = end + 1;
    }
    end
}

/// The windows of the pieces of `v[lo..hi]` between occurrences of `sep`.
pub fn split_windows(v: &Vec<char>, lo: usize, hi: usize, sep: char) -> (out: Vec<(usize, usize)>)
    requires
        lo <= hi <= v.len(),
    ensures
        windows_text(v@, out@) == split(v@.subrange(lo as int, hi as int), sep),
        forall|k: int| 0 <= k < out.len() ==> lo <= (#[trigger] out[k]).0 <= out[k].1 <= hi,
{
    let ghost whole = split(v@.subrange(lo as int, hi as int), sep);
    let mut out: Vec<(usize, usize)> = Vec::new();
    let mut cur: usize = lo;
    let mut end: usize = find_window(v, cur, hi, sep);
    assert(windows_text(v@, out@) + split(v@.subrange(cur as int, hi as int), sep) =~= whole);
    while end < hi
        invariant
            lo <= cur <= end <= hi <= v.len(),
            end - cur == find_sep(v@.subrange(cur as int, hi as int), sep, 0),
            whole == windows_text(v@, out@) + split(v@.subrange(cur as int, hi as int), sep),
            forall|k: int| 0 <= k < out.len() ==> lo <= (#[trigger] out[k]).0 <= out[k].1 <= hi,
        decreases hi - cur,
    {
        let ghost rest = v@.subrange(cur as int, hi as int);
        let ghost before = out@;
        out.push((cur, end));
        proof {
            assert(rest.take(end - cur) =~= v@.subrange(cur as int, end as int));
            assert(rest.skip(end - cur + 1) =~= v@.subrange(end + 1, hi as int));
            assert(windows_text(v@, out@) =~= windows_text(v@, before).push(
                v@.subrange(cur as int, end as int),
            ));
            assert(windows_text(v@, out@) + split(v@.subrange(end + 1, hi as int), sep) =~= whole);
        }
        cur = end + 1;
        end = find_window(v, cur, hi, sep);
    }
    let ghost before = out@;
    out.push((cur, end));
    proof {
        assert(windows_text(v@, out@) =~= windows_text(v@, before).push(
            v@.subrange(cur as int, hi as int),
        ));
        assert(windows_text(v@, out@) =~= whole);
    }
    out
}

/// `c` is one of the ten decimal digits.
pub open spec fn is_digit(c: char) -> bool {
    '0' <= c <= '9'
}

/// The value of the decimal digit `c`.
pub open spec fn digit_value(c: char) -> nat {
    (c as int - '0' as int) as nat
}

/// Every character of `s` is a decimal digit.
pub open spec fn all_digits(s: Seq<char>) -> bool {
    forall|i: int| 0 <= i < s.len() ==> is_digit(#[trigger] s[i])
}

/// The number that the decimal digits of `s` write.
pub open spec fn decimal_value(s: Seq<char>) -> nat
    decreases s.len(),
{
    if s.len() == 0 {
        0
    } else {
        decimal_value(s.drop_last()) * 10 + digit_value(s.last())
    }
}

/// What `s` denotes as an unsigned decimal number of at most `max`: one or
/// more decimal digits, with an optional `+` in front. Anything else, a sign
/// `-` among it, denotes nothing, and so does a number above `max`.
pub open spec fn unsigned_decimal(s: Seq<char>, max: nat) -> Option<nat> {
    let body = if s.len() > 0 && s[0] == '+' {
        s.drop_first()
    } else {
        s
    };
    if body.len() > 0 && all_digits(body) && decimal_value(body) <= max {
        Some(decimal_value(body))
    } else {
        None
    }
}

/// The digits at the start of a number write no more than all of them.
pub proof fn lemma_decimal_value_prefix(s: Seq<char>, k: int)
    requires
        0 <= k <= s.len(),
    ensures
        decimal_value(s.take(k)) <= decimal_value(s),
    decreases s.len(),
{
    if k == s.len() {
        assert(s.take(k) =~= s);
    } else {
        assert(s.drop_last().take(k) =~= s.take(k));
        lemma_decimal_value_prefix(s.drop_last(), k);
    }
}

/// Reads `v[lo..hi]` as an unsigned decimal number of at most `max`.
pub fn parse_unsigned(v: &Vec<char>, lo: usize, hi: usize, max: u64) -> (r: Option<u64>)
    requires
        lo <= hi <= v.len(),
    ensures
        match unsigned_decimal(v@.subrange(lo as int, hi as int), max as nat) {
            Some(n) => r == Some(n as u64) && n <= max,
            None => r is None,
        },
{
    let ghost s = v@.subrange(lo as int, hi as int);
    let start: usize = if lo < hi && v[lo] == '+' {
        lo + 1
    } else {
        lo
    };
    let ghost body = v@.subrange(start as int, hi as int);
    assert(body =~= if s.len() > 0 && s[0] == '+' {
        s.drop_first()
    } else {
        s
    });
    if start == hi {
        return None;
    }
    let mut acc: u64 = 0;
    let mut i: usize = start;
    assert(body.take(0) =~= Seq::<char>::empty());
    while i < hi
        invariant
            start <= i <= hi <= v.len(),
            body == v@.subrange(start as int, hi as int),
            s == v@.subrange(lo as int, hi as int),
            body == if s.len() > 0 && s[0] == '+' {
                s.drop_first()
            } else {
                s
            },
            all_digits(body.take(i - start)),
            acc == decimal_value(body.take(i - start)),
            acc <= max,
        decreases hi - i,
    {
        let c: char = v[i];
        let ghost next = body.take(i - start + 1);
        assert(next.drop_last() =~= body.take(i - start));
        assert(next.last() == c);
        if c < '0' || c > '9' {
            assert(!is_digit(body[i - start]));
            return None;
        }
        let d: u64 = (c as u32 - '0' as u32) as u64;
        proof {
            lemma_decimal_value_prefix(body, i - start + 1);
        }
        if d > max || acc > (max - d) / 10 {
            assert(decimal_value(next) > max);
            return None;
        }
        acc = acc * 10 + d;
        assert(all_digits(next)) by {
            assert forall|j: int| 0 <= j < next.len() implies is_digit(#[trigger] next[j]) by {
                if j < i - start {
                    assert(body.take(i - start)[j] == next[j]);
                }
            }
        }
        i = i + 1;
    }
    assert(body.take(hi - start) =~= body);
    Some(acc)
}

/// `a` comes before `b` in the lexicographic order of their characters: at
/// the first place where they differ `a` holds the smaller character, or `a`
/// ends there and `b` does not.
pub open spec fn lex_less(a: Seq<char>, b: Seq<char>) -> bool
    decreases a.len(),
{
    if b.len() == 0 {
        false
    } else if a.len() == 0 {
        true
    } else if a[0] != b[0] {
        a[0] < b[0]
    } else {
        lex_less(a.skip(1), b.skip(1))
    }
}

/// Of two sequences at most one comes before the other.
pub proof fn lemma_lex_less_asymmetric(a: Seq<char>, b: Seq<char>)
    ensures
        !(lex_less(a, b) && lex_less(b, a)),
    decreases a.len(),
{
    if a.len() > 0 && b.len() > 0 && a[0] == b[0] {
        lemma_lex_less_asymmetric(a.skip(1), b.skip(1));
    }
}

/// What comes before a sequence comes before all that it comes before.
pub proof fn lemma_lex_less_transitive(a: Seq<char>, b: Seq<char>, c: Seq<char>)
    requires
        lex_less(a, b),
        lex_less(b, c),
    ensures
        lex_less(a, c),
    decreases a.len(),
{
    if a.len() > 0 && b.len() > 0 && c.len() > 0 && a[0] == b[0] && b[0] == c[0] {
        lemma_lex_less_transitive(a.skip(1), b.skip(1), c.skip(1));
    }
}

/// Of two different sequences one comes before the other.
pub proof fn lemma_lex_less_total(a: Seq<char>, b: Seq<char>)
    ensures
        a == b || lex_less(a, b) || lex_less(b, a),
    decreases a.len(),
{
    if a.len() > 0 && b.len() > 0 && a[0] == b[0] {
        lemma_lex_less_total(a.skip(1), b.skip(1));
        if a.skip(1) == b.skip(1) {
            assert(a =~= seq![a[0]] + a.skip(1));
            assert(b =~= seq![b[0]] + b.skip(1));
        }
    } else if a.len() == 0 && b.len() == 0 {
        assert(a =~= b);
    }
}

/// Whether `a` comes before `b` in the lexicographic order.
pub fn is_lex_less(a: &Vec<char>, b: &Vec<char>) -> (r: bool)
    ensures
        r == lex_less(a@, b@),
{
    let mut i: usize = 0;
    assert(a@.skip(0) =~= a@ && b@.skip(0) =~= b@);
    while i < a.len() && i < b.len() && a[i] == b[i]
        invariant
            i <= a.len(),
            i <= b.len(),
            lex_less(a@, b@) == lex_less(a@.skip(i as int), b@.skip(i as int)),
        decreases a.len() - i,
    {
        assert(a@.skip(i as int).skip(1) =~= a@.skip(i + 1));
        assert(b@.skip(i as int).skip(1) =~= b@.skip(i + 1));
        i = i + 1;
    }
    if i >= b.len() {
        false
    } else if i >= a.len() {
        true
    } else {
        a[i] < b[i]
    }
}

} // verus!
