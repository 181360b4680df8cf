//! Character-level helpers shared by the metadata and plural-formula parsers.
//!
//! All functions work on sequences of Unicode scalar values. Executable
//! functions take a character slice together with a half-open index range,
//! so that callers can cut the text they were given without copying it.

use vstd::prelude::*;
use vstd::slice::slice_subrange;
use vstd::std_specs::iter::IteratorSpec;
use vstd::string::*;

verus! {

/// Characters with the Unicode `White_Space` property.
pub open spec fn is_space(c: char) -> bool {
    let u = c as u32;
    ||| 0x09 <= u <= 0x0D
    ||| u == 0x20
    ||| u == 0x85
    ||| u == 0xA0
    ||| u == 0x1680
    ||| 0x2000 <= u <= 0x200A
    ||| u == 0x2028
    ||| u == 0x2029
    ||| u == 0x202F
    ||| u == 0x205F
    ||| u == 0x3000
}

/// Tells whether `c` has the Unicode `White_Space` property.
pub fn is_whitespace(c: char) -> (r: bool)
    ensures
        r == is_space(c),
{
    let u: u32 = c as u32;
    (0x09 <= u && u <= 0x0D) || u == 0x20 || u == 0x85 || u == 0xA0 || u == 0x1680 || (0x2000 <= u
        && u <= 0x200A) || u == 0x2028 || u == 0x2029 || u == 0x202F || u == 0x205F || u == 0x3000
}

/// `s` without its leading white space.
pub open spec fn skip_leading(s: Seq<char>) -> Seq<char>
    decreases s.len(),
{
    if s.len() > 0 && is_space(s[0]) {
        skip_leading(s.drop_first())
    } else {
        s
    }
}

/// `s` without its trailing white space.
pub open spec fn skip_trailing(s: Seq<char>) -> Seq<char>
    decreases s.len(),
{
    if s.len() > 0 && is_space(s.last()) {
        skip_trailing(s.drop_last())
    } else {
        s
    }
}

/// `s` without leading and trailing white space.
pub open spec fn trim(s: Seq<char>) -> Seq<char> {
    skip_trailing(skip_leading(s))
}

/// A text is trimmed when it neither starts nor ends with white space.
pub open spec fn is_trimmed(s: Seq<char>) -> bool {
    s.len() > 0 ==> !is_space(s[0]) && !is_space(s.last())
}

pub proof fn lemma_skip_leading_shape(s: Seq<char>)
    ensures
        skip_leading(s).len() <= s.len(),
        skip_leading(s) == s.subrange(s.len() - skip_leading(s).len(), s.len() as int),
        skip_leading(s).len() > 0 ==> !is_space(skip_leading(s)[0]),
        forall|i: int| 0 <= i < s.len() - skip_leading(s).len() ==> is_space(#[trigger] s[i]),
    decreases s.len(),
{
    if s.len() > 0 && is_space(s[0]) {
        let t = s.drop_first();
        lemma_skip_leading_shape(t);
        let r = skip_leading(t);
        assert(r == s.subrange(s.len() - r.len(), s.len() as int)) by {
            assert(t.subrange(t.len() - r.len(), t.len() as int) =~= s.subrange(
                s.len() - r.len(),
                s.len() as int,
            ));
        }
        assert forall|i: int| 0 <= i < s.len() - r.len() implies is_space(#[trigger] s[i]) by {
            if i > 0 {
                assert(s[i] == t[i - 1]);
            }
        }
    } else {
        assert(s =~= s.subrange(0, s.len() as int));
    }
}

pub proof fn lemma_skip_trailing_shape(s: Seq<char>)
    ensures
        skip_trailing(s).len() <= s.len(),
        skip_trailing(s) == s.subrange(0, skip_trailing(s).len() as int),
        skip_trailing(s).len() > 0 ==> !is_space(skip_trailing(s).last()),
        forall|i: int| skip_trailing(s).len() <= i < s.len() ==> is_space(#[trigger] s[i]),
    decreases s.len(),
{
    if s.len() > 0 && is_space(s.last()) {
        let t = s.drop_last();
        lemma_skip_trailing_shape(t);
        let r = skip_trailing(t);
        assert(r == s.subrange(0, r.len() as int)) by {
            assert(t.subrange(0, r.len() as int) =~= s.subrange(0, r.len() as int));
        }
        assert forall|i: int| r.len() <= i < s.len() implies is_space(#[trigger] s[i]) by {
            if i < s.len() - 1 {
                assert(s[i] == t[i]);
            }
        }
    } else {
        assert(s =~= s.subrange(0, s.len() as int));
    }
}

/// Trimming yields a trimmed text that is no longer than the original.
pub proof fn lemma_trim_shape(s: Seq<char>)
    ensures
        trim(s).len() <= s.len(),
        is_trimmed(trim(s)),
{
    lemma_skip_leading_shape(s);
    let t = skip_leading(s);
    lemma_skip_trailing_shape(t);
    let r = skip_trailing(t);
    if r.len() > 0 {
        assert(r[0] == t[0]);
    }
}

/// Trimming a trimmed text changes nothing; in particular `trim` is idempotent.
pub proof fn lemma_trim_of_trimmed(s: Seq<char>)
    requires
        is_trimmed(s),
    ensures
        trim(s) == s,
{
}

/// The end of the leading white space of `chars[lo..hi]`.
pub(crate) fn skip_leading_in(chars: &[char], lo: usize, hi: usize) -> (a: usize)
    requires
        lo <= hi <= chars.len(),
    ensures
        lo <= a <= hi,
        chars@.subrange(a as int, hi as int) == skip_leading(chars@.subrange(lo as int, hi as int)),
{
    let mut a: usize = lo;
    while a < hi && is_whitespace(chars[a])
        invariant
            lo <= a <= hi <= chars.len(),
            skip_leading(chars@.subrange(a as int, hi as int)) == skip_leading(
                chars@.subrange(lo as int, hi as int),
            ),
        decreases hi - a,
    {
        assert(chars@.subrange(a as int, hi as int).drop_first() =~= chars@.subrange(
            a + 1,
            hi as int,
        ));
        a += 1;
    }
    a
}

/// The start of the trailing white space of `chars[lo..hi]`.
pub(crate) fn skip_trailing_in(chars: &[char], lo: usize, hi: usize) -> (b: usize)
    requires
        lo <= hi <= chars.len(),
    ensures
        lo <= b <= hi,
        chars@.subrange(lo as int, b as int) == skip_trailing(
            chars@.subrange(lo as int, hi as int),
        ),
{
    let mut b: usize = hi;
    while lo < b && is_whitespace(chars[b - 1])
        invariant
            lo <= b <= hi <= chars.len(),
            skip_trailing(chars@.subrange(lo as int, b as int)) == skip_trailing(
                chars@.subrange(lo as int, hi as int),
            ),
        decreases b - lo,
    {
        assert(chars@.subrange(lo as int, b as int).drop_last() =~= chars@.subrange(
            lo as int,
            b - 1,
        ));
        b -= 1;
    }
    b
}

/// The bounds of `chars[lo..hi]` once white space is removed from both ends.
pub(crate) fn trim_in(chars: &[char], lo: usize, hi: usize) -> (r: (usize, usize))
    requires
        lo <= hi <= chars.len(),
    ensures
        lo <= r.0 <= r.1 <= hi,
        chars@.subrange(r.0 as int, r.1 as int) == trim(chars@.subrange(lo as int, hi as int)),
{
    let a = skip_leading_in(chars, lo, hi);
    let b = skip_trailing_in(chars, a, hi);
    (a, b)
}

/// The part of `src` left once white space is removed from both ends.
pub fn trim_slice(src: &[char]) -> (r: &[char])
    ensures
        r@ == trim(src@),
{
    let (a, b) = trim_in(src, 0, src.len());
    assert(src@.subrange(0, src.len() as int) =~= src@);
    slice_subrange(src, a, b)
}

/// The characters of an optional borrowed text.
pub open spec fn str_of(s: Option<&str>) -> Option<Seq<char>> {
    match s {
        Some(t) => Some(t@),
        None => None,
    }
}

/// The characters of `s`, in order.
pub fn chars_of(s: &str) -> (v: Vec<char>)
    ensures
        v@ == s@,
{
    let mut v: Vec<char> = Vec::new();
    let chars = s.chars();
    for c in it: chars
        invariant
            it.seq() == s@,
            v@ == s@.take(it.index() as int),
    {
        v.push(c);
    }
    v
}

/// The value of a decimal digit.
pub open spec fn digit_value(c: char) -> Option<nat> {
    if '0' <= c <= '9' {
        Some((c as u32 - '0' as u32) as nat)
    } else {
        None
    }
}

/// The number that a run of decimal digits denotes; the empty run denotes 0.
pub open spec fn digits_value(s: Seq<char>) -> Option<nat>
    decreases s.len(),
{
    if s.len() == 0 {
        Some(0)
    } else {
        match (digits_value(s.drop_last()), digit_value(s.last())) {
            (Some(v), Some(d)) => Some(10 * v + d),
            _ => None,
        }
    }
}

/// The number that `s` denotes as a decimal literal: one or more decimal
/// digits, which a single `+` may precede.
pub open spec fn decimal_value(s: Seq<char>) -> Option<nat> {
    let digits = if s.len() > 0 && s[0] == '+' {
        s.drop_first()
    } else {
        s
    };
    if digits.len() == 0 {
        None
    } else {
        digits_value(digits)
    }
}

/// The decimal literals that denote a number up to `max`.
pub open spec fn decimal_up_to(s: Seq<char>, max: nat) -> Option<nat> {
    match decimal_value(s) {
        Some(v) => if v <= max {
            Some(v)
        } else {
            None
        },
        None => None,
    }
}

/// A run of digits denotes at least what each of its prefixes denotes.
pub proof fn lemma_digits_prefix(s: Seq<char>, k: int)
    requires
        0 <= k <= s.len(),
        digits_value(s) is Some,
    ensures
        digits_value(s.take(k)) is Some,
        digits_value(s.take(k))->0 <= digits_value(s)->0,
    decreases s.len(),
{
    if k == s.len() {
        assert(s.take(k) =~= s);
    } else {
        assert(s.drop_last().take(k) =~= s.take(k));
        lemma_digits_prefix(s.drop_last(), k);
    }
}

/// Reads `chars` as a decimal literal that denotes a number up to `max`.
pub fn parse_decimal(chars: &[char], max: u64) -> (r: Option<u64>)
    ensures
        match r {
            Some(v) => decimal_up_to(chars@, max as nat) == Some(v as nat),
            None => decimal_up_to(chars@, max as nat) is None,
        },
{
    let start: usize = if chars.len() > 0 && chars[0] == '+' {
        1
    } else {
        0
    };
    if start == chars.len() {
        return None;
    }
    let ghost digits = chars@.subrange(start as int, chars.len() as int);
    assert(digits == if chars@.len() > 0 && chars@[0] == '+' {
        chars@.drop_first()
    } else {
        chars@
    });
    let mut value: u64 = 0;
    let mut i: usize = start;
    while i < chars.len()
        invariant
            start <= i <= chars.len(),
            digits == chars@.subrange(start as int, chars.len() as int),
            decimal_value(chars@) == digits_value(digits),
            digits_value(digits.take(i - start)) == Some(value as nat),
            value <= max,
        decreases chars.len() - i,
    {
        let c = chars[i];
        let ghost next = digits.take(i - start + 1);
        proof {
            assert(next.drop_last() =~= digits.take(i - start));
            assert(next.last() == c);
            if digits_value(digits) is Some {
                lemma_digits_prefix(digits, i - start + 1);
            }
        }
        if !('0' <= c && c <= '9') {
            assert(digits_value(next) is None);
            return None;
        }
        let d: u64 = (c as u32 - '0' as u32) as u64;
        assert(digits_value(next) == Some((10 * value + d) as nat));
        if value > max / 10 {
            return None;
        }
        let tens: u64 = value * 10;
        if d > max - tens {
            return None;
        }
        value = tens + d;
        i += 1;
    }
    assert(digits.take(i - start) =~= digits);
    Some(value)
}

/// Where `x` first occurs in `s`.
pub open spec fn position<T>(s: Seq<T>, x: T) -> Option<int>
    decreases s.len(),
{
    if s.len() == 0 {
        None
    } else if s[0] == x {
        Some(0)
    } else {
        match position(s.drop_first(), x) {
            Some(i) => Some(i + 1),
            None => None,
        }
    }
}

/// `position` finds an occurrence, and the first one.
pub proof fn lemma_position<T>(s: Seq<T>, x: T)
    ensures
        match position(s, x) {
            Some(i) => 0 <= i < s.len() && s[i] == x && forall|j: int| 0 <= j < i ==> s[j] != x,
            None => forall|j: int| 0 <= j < s.len() ==> s[j] != x,
        },
    decreases s.len(),
{
    if s.len() > 0 && s[0] != x {
        let t = s.drop_first();
        lemma_position(t, x);
        match position(t, x) {
            Some(i) => {
                assert forall|j: int| 0 <= j < i + 1 implies s[j] != x by {
                    if j > 0 {
                        assert(s[j] == t[j - 1]);
                    }
                }
            },
            None => {
                assert forall|j: int| 0 <= j < s.len() implies s[j] != x by {
                    if j > 0 {
                        assert(s[j] == t[j - 1]);
                    }
                }
            },
        }
    }
}

/// An occurrence before which there is none is the one that `position` finds.
pub proof fn lemma_position_is<T>(s: Seq<T>, x: T, i: int)
    requires
        0 <= i < s.len(),
        s[i] == x,
        forall|j: int| 0 <= j < i ==> s[j] != x,
    ensures
        position(s, x) == Some(i),
{
    lemma_position(s, x);
}

/// Where there is no occurrence `position` finds none.
pub proof fn lemma_position_none<T>(s: Seq<T>, x: T)
    requires
        forall|j: int| 0 <= j < s.len() ==> s[j] != x,
    ensures
        position(s, x) is None,
{
    lemma_position(s, x);
}

/// The pieces of `s` between the occurrences of the separator `sep`. There
/// is one piece more than there are separators; a piece may be empty.
pub open spec fn split<T>(s: Seq<T>, sep: T) -> Seq<Seq<T>>
    decreases s.len(),
    via split_decreases::<T>
{
    match position(s, sep) {
        Some(i) => seq![s.subrange(0, i)] + split(s.subrange(i + 1, s.len() as int), sep),
        None => seq![s],
    }
}

#[via_fn]
proof fn split_decreases<T>(s: Seq<T>, sep: T) {
    lemma_position(s, sep);
}

/// The text `pat` stands in `s` at `i`.
pub open spec fn occurs_at(s: Seq<char>, pat: Seq<char>, i: int) -> bool {
    0 <= i && i + pat.len() <= s.len() && s.subrange(i, i + pat.len()) == pat
}

/// Where the text `pat` first stands in `s`, looking from `from` on.
pub open spec fn find_from(s: Seq<char>, pat: Seq<char>, from: int) -> Option<int>
    decreases s.len() + 1 - from,
{
    if from < 0 || from + pat.len() > s.len() {
        None
    } else if occurs_at(s, pat, from) {
        Some(from)
    } else {
        find_from(s, pat, from + 1)
    }
}

/// Where the text `pat` first stands in `s`.
pub open spec fn find(s: Seq<char>, pat: Seq<char>) -> Option<int> {
    find_from(s, pat, 0)
}

/// Finds where `c` first occurs in `chars[lo..hi]`.
pub(crate) fn find_char(chars: &[char], lo: usize, hi: usize, c: char) -> (r: Option<usize>)
    requires
        lo <= hi <= chars.len(),
    ensures
        match r {
            Some(p) => lo <= p < hi && position(chars@.subrange(lo as int, hi as int), c) == Some(
                p - lo,
            ),
            None => position(chars@.subrange(lo as int, hi as int), c) is None,
        },
{
    let ghost s = chars@.subrange(lo as int, hi as int);
    let mut p: usize = lo;
    while p < hi
        invariant
            lo <= p <= hi <= chars.len(),
            s == chars@.subrange(lo as int, hi as int),
            forall|j: int| 0 <= j < p - lo ==> s[j] != c,
        decreases hi - p,
    {
        if chars[p] == c {
            proof {
                lemma_position_is(s, c, p - lo);
            }
            return Some(p);
        }
        p += 1;
    }
    proof {
        lemma_position_none(s, c);
    }
    None
}

/// Tells whether `chars[lo..hi]` is the text `pat`.
pub(crate) fn range_is(chars: &[char], lo: usize, hi: usize, pat: &[char]) -> (r: bool)
    requires
        lo <= hi <= chars.len(),
    ensures
        r == (chars@.subrange(lo as int, hi as int) == pat@),
{
    if hi - lo != pat.len() {
        return false;
    }
    let mut k: usize = 0;
    while k < pat.len()
        invariant
            lo <= hi <= chars.len(),
            hi - lo == pat.len(),
            k <= pat.len(),
            forall|j: int| 0 <= j < k ==> chars@[lo + j] == pat@[j],
        decreases pat.len() - k,
    {
        if chars[lo + k] != pat[k] {
            assert(chars@.subrange(lo as int, hi as int)[k as int] != pat@[k as int]);
            return false;
        }
        k += 1;
    }
    assert(chars@.subrange(lo as int, hi as int) =~= pat@);
    true
}

/// Finds where the text `pat` first stands in `chars`.
pub fn find_text(chars: &[char], pat: &[char]) -> (r: Option<usize>)
    ensures
        match r {
            Some(p) => find(chars@, pat@) == Some(p as int) && p + pat.len() <= chars.len(),
            None => find(chars@, pat@) is None,
        },
{
    if pat.len() > chars.len() {
        return None;
    }
    if pat.len() == 0 {
        assert(chars@.subrange(0, 0) =~= pat@);
        return Some(0);
    }
    let last: usize = chars.len() - pat.len();
    let mut p: usize = 0;
    while p <= last
        invariant
            0 < pat.len() <= chars.len(),
            last == chars.len() - pat.len(),
            p <= last + 1,
            find(chars@, pat@) == find_from(chars@, pat@, p as int),
        decreases last + 1 - p,
    {
        if range_is(chars, p, p + pat.len(), pat) {
            return Some(p);
        }
        p += 1;
    }
    None
}

/// The first piece of `s[start..]` ends at the first separator, or at the
/// end where there is none.
pub proof fn lemma_split_step<T>(s: Seq<T>, sep: T, start: int, found: Option<int>)
    requires
        0 <= start <= s.len(),
        match found {
            Some(p) => start <= p < s.len() && position(s.subrange(start, s.len() as int), sep)
                == Some(p - start),
            None => position(s.subrange(start, s.len() as int), sep) is None,
        },
    ensures
        match found {
            Some(p) => split(s.subrange(start, s.len() as int), sep) == seq![s.subrange(start, p)]
                + split(s.subrange(p + 1, s.len() as int), sep),
            None => split(s.subrange(start, s.len() as int), sep) == seq![
                s.subrange(start, s.len() as int),
            ],
        },
{
    let rest = s.subrange(start, s.len() as int);
    match found {
        Some(p) => {
            assert(rest.subrange(0, p - start) =~= s.subrange(start, p));
            assert(rest.subrange(p - start + 1, rest.len() as int) =~= s.subrange(
                p + 1,
                s.len() as int,
            ));
        },
        None => {},
    }
}


/// A text has one piece at least.
pub proof fn lemma_split_len<T>(s: Seq<T>, sep: T)
    ensures
        split(s, sep).len() > 0,
{
    lemma_position(s, sep);
}

} // verus!
