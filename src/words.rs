//! Words of a line of source text: blanks between them, a `#` ending them, and what a word
//! may be (a number, a register, the halt, a label).
use vstd::prelude::*;

use crate::memory::RegisterNumber;

verus! {

/// Blank between words.
pub open spec fn is_space(c: char) -> bool {
    c == ' ' || c == '\t' || c == '\r'
}

pub open spec fn is_digit(c: char) -> bool {
    '0' <= c && c <= '9'
}

/// A character a label may hold.
pub open spec fn is_label_char(c: char) -> bool {
    ('a' <= c && c <= 'z') || ('A' <= c && c <= 'Z') || is_digit(c) || c == '_'
}

/// The number written by decimal digits.
pub open spec fn decimal_value(w: Seq<char>) -> nat
    decreases w.len(),
{
    if w.len() == 0 {
        0
    } else {
        10 * decimal_value(w.drop_last()) + ((w.last() as u32 - '0' as u32) as nat)
    }
}

/// The number a word writes in decimal, if it is one that fits in a `u128`.
pub open spec fn number_word(w: Seq<char>) -> Option<u128> {
    if w.len() > 0 && (forall|i: int| 0 <= i < w.len() ==> is_digit(#[trigger] w[i]))
        && decimal_value(w) <= u128::MAX {
        Some(decimal_value(w) as u128)
    } else {
        None
    }
}

/// The register a word names: `rN` or `r-N`.
pub open spec fn register_word(w: Seq<char>) -> Option<RegisterNumber> {
    if w.len() >= 2 && w[0] == 'r' {
        if w[1] == '-' {
            match number_word(w.subrange(2, w.len() as int)) {
                Some(n) => if n <= usize::MAX {
                    Some(RegisterNumber::Negative(n as usize))
                } else {
                    None
                },
                None => None,
            }
        } else {
            match number_word(w.subrange(1, w.len() as int)) {
                Some(n) => if n <= usize::MAX {
                    Some(RegisterNumber::Natural(n as usize))
                } else {
                    None
                },
                None => None,
            }
        }
    } else {
        None
    }
}

/// The word `halt`, in any case.
pub open spec fn is_halt_word(w: Seq<char>) -> bool {
    &&& w.len() == 4
    &&& (w[0] == 'h' || w[0] == 'H')
    &&& (w[1] == 'a' || w[1] == 'A')
    &&& (w[2] == 'l' || w[2] == 'L')
    &&& (w[3] == 't' || w[3] == 'T')
}

/// A label name: one or more label characters.
pub open spec fn is_label_word(w: Seq<char>) -> bool {
    w.len() > 0 && forall|i: int| 0 <= i < w.len() ==> is_label_char(#[trigger] w[i])
}

/// A prefix of digits writes no more than the whole.
proof fn lemma_decimal_grows(w: Seq<char>, k: int)
    requires
        0 <= k <= w.len(),
        forall|i: int| 0 <= i < w.len() ==> is_digit(#[trigger] w[i]),
    ensures
        decimal_value(w.take(k)) <= decimal_value(w),
    decreases w.len() - k,
{
    if k < w.len() {
        lemma_decimal_grows(w, k + 1);
        assert(w.take(k + 1).drop_last() =~= w.take(k));
    } else {
        assert(w.take(k) =~= w);
    }
}

/// The characters of `s`.
pub(crate) fn chars_of(s: &str) -> (r: Vec<char>)
    ensures
        r@ == s@,
{
    let mut r: Vec<char> = Vec::new();
    for c in it: s.chars()
        invariant
            r@ == it.seq().take(it.index() as int),
    {
        r.push(c);
    }
    r
}

/// The number that `chars[start..end]` writes in decimal, if it fits in a `u128`.
pub(crate) fn parse_number(chars: &Vec<char>, start: usize, end: usize) -> (r: Option<u128>)
    requires
        start <= end <= chars@.len(),
    ensures
        r == number_word(chars@.subrange(start as int, end as int)),
{
    let ghost w = chars@.subrange(start as int, end as int);
    if start == end {
        return None;
    }
    let mut acc: u128 = 0;
    let mut i: usize = start;
    while i < end
        invariant
            start <= i <= end <= chars@.len(),
            w == chars@.subrange(start as int, end as int),
            forall|k: int| 0 <= k < i - start ==> is_digit(#[trigger] w[k]),
            acc == decimal_value(w.take(i - start)),
        decreases end - i,
    {
        let c = chars[i];
        if !('0' <= c && c <= '9') {
            proof {
                assert(!is_digit(w[i - start]));
            }
            return None;
        }
        let d = (c as u32 - '0' as u32) as u128;
        proof {
            assert(w.take(i - start + 1).drop_last() =~= w.take(i - start));
            assert(w[i - start] == c);
        }
        if acc > (u128::MAX - d) / 10 {
            proof {
                assert(10 * acc + d > u128::MAX) by (nonlinear_arith)
                    requires
                        acc > (u128::MAX - d) / 10,
                        d <= 9,
                ;
            }
            let rest = all_digits(chars, i + 1, end);
            proof {
                if rest {
                    assert forall|k: int| 0 <= k < w.len() implies is_digit(#[trigger] w[k]) by {
                        if k > i - start {
                            assert(w[k] == chars@[start + k]);
                        }
                    }
                    lemma_decimal_grows(w, i - start + 1);
                } else {
                    let k = choose|k: int| i + 1 <= k < end && !is_digit(#[trigger] chars@[k]);
                    assert(w[k - start] == chars@[k]);
                }
            }
            return None;
        }
        proof {
            assert(10 * acc + d <= u128::MAX) by (nonlinear_arith)
                requires
                    acc <= (u128::MAX - d) / 10,
                    d <= 9,
            ;
        }
        acc = acc * 10 + d;
        i = i + 1;
    }
    proof {
        assert(w.take(end - start) =~= w);
    }
    Some(acc)
}

/// Whether every character of `chars[start..end]` is a decimal digit.
pub(crate) fn all_digits(chars: &Vec<char>, start: usize, end: usize) -> (r: bool)
    requires
        start <= end <= chars@.len(),
    ensures
        r == forall|k: int| start <= k < end ==> is_digit(#[trigger] chars@[k]),
{
    let mut i: usize = start;
    while i < end
        invariant
            start <= i <= end <= chars@.len(),
            forall|k: int| start <= k < i ==> is_digit(#[trigger] chars@[k]),
        decreases end - i,
    {
        let c = chars[i];
        if !('0' <= c && c <= '9') {
            return false;
        }
        i = i + 1;
    }
    true
}

/// `chars[s..e]` is a word: one or more characters, none blank and none a `#`.
pub open spec fn is_word_span(chars: Seq<char>, s: int, e: int) -> bool {
    0 <= s < e <= chars.len() && forall|k: int|
        s <= k < e ==> !is_space(#[trigger] chars[k]) && chars[k] != '#'
}

/// No `#` in `chars[start..p]`.
pub open spec fn before_comment(chars: Seq<char>, start: int, p: int) -> bool {
    forall|m: int| start <= m < p ==> chars[m] != '#'
}

/// `words` are the words of `chars[start..end]`, in order, up to a `#`: each a maximal run
/// of characters neither blank nor `#`, and every such character before the `#` in one.
#[verifier::opaque]
pub open spec fn splits(chars: Seq<char>, start: int, end: int, words: Seq<(usize, usize)>) -> bool {
    &&& forall|k: int|
        0 <= k < words.len() ==> start <= (#[trigger] words[k]).0 && words[k].1 <= end
            && is_word_span(chars, words[k].0 as int, words[k].1 as int) && before_comment(
            chars,
            start,
            words[k].1 as int,
        ) && (words[k].0 == start || is_space(chars[words[k].0 - 1])) && (words[k].1 == end
            || is_space(chars[words[k].1 as int]) || chars[words[k].1 as int] == '#')
    &&& forall|k: int| 0 < k < words.len() ==> words[k - 1].1 < (#[trigger] words[k]).0
    &&& forall|p: int|
        start <= p < end && !is_space(#[trigger] chars[p]) && before_comment(chars, start, p + 1)
            ==> exists|k: int| 0 <= k < words.len() && (#[trigger] words[k]).0 <= p < words[k].1
}

/// Spans of a split keep their order across any distance.
proof fn lemma_splits_ordered(chars: Seq<char>, start: int, end: int, w: Seq<(usize, usize)>, i: int, j: int)
    requires
        splits(chars, start, end, w),
        0 <= i < j < w.len(),
    ensures
        w[i].1 < w[j].0,
    decreases j - i,
{
    reveal(splits);
    assert(w[j - 1].1 < w[j].0);
    if i < j - 1 {
        lemma_splits_ordered(chars, start, end, w, i, j - 1);
        assert(w[j - 1].0 < w[j - 1].1);
    }
}

/// A span of a split starts at `p` exactly when `p` starts a word: a character neither
/// blank nor `#`, before any `#`, at the start or after a blank.
proof fn lemma_splits_start(chars: Seq<char>, start: int, end: int, w: Seq<(usize, usize)>, p: int)
    requires
        splits(chars, start, end, w),
        start <= p < end,
        !is_space(chars[p]),
        chars[p] != '#',
        before_comment(chars, start, p + 1),
        p == start || is_space(chars[p - 1]),
    ensures
        exists|k: int| 0 <= k < w.len() && (#[trigger] w[k]).0 == p,
{
    reveal(splits);
    let k = choose|k: int| 0 <= k < w.len() && (#[trigger] w[k]).0 <= p < w[k].1;
    if w[k].0 < p {
        assert(!is_space(chars[p - 1]));
    }
}

/// A span of a split ends where its word ends.
proof fn lemma_splits_end(chars: Seq<char>, start: int, end: int, w: Seq<(usize, usize)>, v: Seq<(usize, usize)>, i: int, j: int)
    requires
        splits(chars, start, end, w),
        splits(chars, start, end, v),
        0 <= i < w.len(),
        0 <= j < v.len(),
        w[i].0 == v[j].0,
    ensures
        w[i].1 == v[j].1,
{
    reveal(splits);
    if w[i].1 < v[j].1 {
        let q = w[i].1 as int;
        assert(!is_space(chars[q]) && chars[q] != '#');
    } else if v[j].1 < w[i].1 {
        let q = v[j].1 as int;
        assert(!is_space(chars[q]) && chars[q] != '#');
    }
}

/// The words of a text are one split only.
pub proof fn lemma_splits_unique(chars: Seq<char>, start: int, end: int, w: Seq<(usize, usize)>, v: Seq<(usize, usize)>)
    requires
        splits(chars, start, end, w),
        splits(chars, start, end, v),
    ensures
        w == v,
{
    assert forall|k: int| 0 <= k < w.len() && k < v.len() implies w[k] == v[k] by {
        lemma_splits_same_at(chars, start, end, w, v, k);
    }
    if w.len() < v.len() {
        lemma_splits_longer(chars, start, end, w, v);
    } else if v.len() < w.len() {
        assert forall|k: int| 0 <= k < v.len() && k < w.len() implies v[k] == w[k] by {
            lemma_splits_same_at(chars, start, end, w, v, k);
        }
        lemma_splits_longer(chars, start, end, v, w);
    }
    assert(w =~= v);
}

/// A span of a split starts a word.
proof fn lemma_span_is_start(chars: Seq<char>, start: int, end: int, w: Seq<(usize, usize)>, k: int)
    requires
        splits(chars, start, end, w),
        0 <= k < w.len(),
    ensures
        start <= w[k].0 < end,
        !is_space(chars[w[k].0 as int]),
        chars[w[k].0 as int] != '#',
        before_comment(chars, start, w[k].0 + 1),
        w[k].0 == start || is_space(chars[w[k].0 - 1]),
{
    reveal(splits);
    assert(w[k].0 < w[k].1);
}

/// Two splits agree on each span that both have.
proof fn lemma_splits_same_at(chars: Seq<char>, start: int, end: int, w: Seq<(usize, usize)>, v: Seq<(usize, usize)>, k: int)
    requires
        splits(chars, start, end, w),
        splits(chars, start, end, v),
        0 <= k < w.len(),
        k < v.len(),
    ensures
        w[k] == v[k],
    decreases k,
{
    if k > 0 {
        lemma_splits_same_at(chars, start, end, w, v, k - 1);
    }
    lemma_span_is_start(chars, start, end, w, k);
    lemma_span_is_start(chars, start, end, v, k);
    if w[k].0 < v[k].0 {
        lemma_splits_start(chars, start, end, v, w[k].0 as int);
        let m = choose|m: int| 0 <= m < v.len() && (#[trigger] v[m]).0 == w[k].0;
        if m < k {
            lemma_splits_same_at(chars, start, end, w, v, m);
            lemma_splits_ordered(chars, start, end, w, m, k);
            lemma_span_is_start(chars, start, end, w, m);
            reveal(splits);
        } else if m > k {
            lemma_splits_ordered(chars, start, end, v, k, m);
            reveal(splits);
        }
    } else if v[k].0 < w[k].0 {
        lemma_splits_start(chars, start, end, w, v[k].0 as int);
        let m = choose|m: int| 0 <= m < w.len() && (#[trigger] w[m]).0 == v[k].0;
        if m < k {
            lemma_splits_same_at(chars, start, end, w, v, m);
            lemma_splits_ordered(chars, start, end, v, m, k);
            lemma_span_is_start(chars, start, end, v, m);
            reveal(splits);
        } else if m > k {
            lemma_splits_ordered(chars, start, end, w, k, m);
            reveal(splits);
        }
    }
    lemma_splits_end(chars, start, end, w, v, k, k);
}

/// A split that agrees with another on its spans is at least as long.
proof fn lemma_splits_longer(chars: Seq<char>, start: int, end: int, w: Seq<(usize, usize)>, v: Seq<(usize, usize)>)
    requires
        splits(chars, start, end, w),
        splits(chars, start, end, v),
        forall|k: int| 0 <= k < w.len() && k < v.len() ==> w[k] == v[k],
    ensures
        v.len() <= w.len(),
{
    if w.len() < v.len() {
        let n = w.len() as int;
        lemma_span_is_start(chars, start, end, v, n);
        lemma_splits_start(chars, start, end, w, v[n].0 as int);
        let m = choose|m: int| 0 <= m < w.len() && (#[trigger] w[m]).0 == v[n].0;
        assert(w[m] == v[m]);
        lemma_splits_ordered(chars, start, end, v, m, n);
        lemma_span_is_start(chars, start, end, v, m);
        reveal(splits);
    }
}

/// The words of `chars[start..end]`, as spans, in order; a `#` ends the words of a line.
pub(crate) fn split_words(chars: &Vec<char>, start: usize, end: usize) -> (r: Vec<(usize, usize)>)
    requires
        start <= end <= chars@.len(),
    ensures
        splits(chars@, start as int, end as int, r@),
        spans_ok(chars@, r@),
        forall|k: int| 0 <= k < r@.len() ==> start <= (#[trigger] r@[k]).0 && r@[k].1 <= end,
{
    reveal(splits);
    let mut r: Vec<(usize, usize)> = Vec::new();
    let mut i: usize = start;
    while i < end
        invariant
            start <= i <= end <= chars@.len(),
            before_comment(chars@, start as int, i as int),
            forall|k: int|
                0 <= k < r@.len() ==> start <= (#[trigger] r@[k]).0 && r@[k].1 <= i
                    && is_word_span(chars@, r@[k].0 as int, r@[k].1 as int) && before_comment(
                    chars@,
                    start as int,
                    r@[k].1 as int,
                ) && (r@[k].0 == start || is_space(chars@[r@[k].0 - 1])) && (r@[k].1 == end
                    || is_space(chars@[r@[k].1 as int]) || chars@[r@[k].1 as int] == '#'),
            forall|k: int| 0 < k < r@.len() ==> r@[k - 1].1 < (#[trigger] r@[k]).0,
            forall|p: int|
                start <= p < i && !is_space(#[trigger] chars@[p]) ==> exists|k: int|
                    0 <= k < r@.len() && (#[trigger] r@[k]).0 <= p < r@[k].1,
            i < end ==> i == start || is_space(chars@[i - 1]) || (r@.len() > 0 && r@[r@.len()
                - 1].1 == i),
            r@.len() > 0 ==> r@[r@.len() - 1].1 <= i,
        decreases end - i,
    {
        let c = chars[i];
        if c == '#' {
            proof {
                reveal(splits);
                assert forall|p: int|
                    start <= p < end && !is_space(#[trigger] chars@[p]) && before_comment(
                        chars@,
                        start as int,
                        p + 1,
                    ) implies exists|k: int| 0 <= k < r@.len() && (#[trigger] r@[k]).0 <= p < r@[k].1 by {
                    if p >= i {
                        assert(chars@[i as int] == '#');
                    }
                }
            }
            return r;
        }
        if c == ' ' || c == '\t' || c == '\r' {
            i = i + 1;
        } else {
            let s = i;
            proof {
                if r@.len() > 0 && r@[r@.len() - 1].1 == i {
                    let k = r@.len() - 1;
                    assert(r@[k].1 == end || is_space(chars@[r@[k].1 as int]) || chars@[r@[k].1 as int]
                        == '#');
                }
            }
            while i < end && !(chars[i] == ' ' || chars[i] == '\t' || chars[i] == '\r'
                || chars[i] == '#')
                invariant
                    s <= i <= end <= chars@.len(),
                    before_comment(chars@, start as int, i as int),
                    forall|k: int| s <= k < i ==> !is_space(#[trigger] chars@[k]) && chars@[k] != '#',
                decreases end - i,
            {
                i = i + 1;
            }
            let ghost before = r@;
            r.push((s, i));
            proof {
                assert(!is_space(chars@[s as int]));
                assert forall|p: int|
                    start <= p < i && !is_space(#[trigger] chars@[p]) implies exists|k: int|
                        0 <= k < r@.len() && (#[trigger] r@[k]).0 <= p < r@[k].1 by {
                    if p < s {
                        let k = choose|k: int| 0 <= k < before.len() && (#[trigger] before[k]).0 <= p < before[k].1;
                        assert(r@[k] == before[k]);
                    } else {
                        assert(r@[r@.len() - 1] == (s, i));
                    }
                }
            }
        }
    }
    r
}

/// Whether `chars[s..e]` is the word `kw`.
pub(crate) fn word_is(chars: &Vec<char>, s: usize, e: usize, kw: &str) -> (r: bool)
    requires
        s <= e <= chars@.len(),
    ensures
        r == (chars@.subrange(s as int, e as int) == kw@),
{
    let k = chars_of(kw);
    if e - s != k.len() {
        return false;
    }
    let mut i: usize = 0;
    while i < k.len()
        invariant
            k@ == kw@,
            e - s == k@.len(),
            s <= e <= chars@.len(),
            i <= k@.len(),
            forall|j: int| 0 <= j < i ==> chars@[s + j] == k@[j],
        decreases k@.len() - i,
    {
        if chars[s + i] != k[i] {
            proof {
                assert(chars@.subrange(s as int, e as int)[i as int] != k@[i as int]);
            }
            return false;
        }
        i = i + 1;
    }
    proof {
        assert(chars@.subrange(s as int, e as int) =~= k@);
    }
    true
}

/// The register that `chars[s..e]` names.
pub(crate) fn parse_register(chars: &Vec<char>, s: usize, e: usize) -> (r: Option<RegisterNumber>)
    requires
        s <= e <= chars@.len(),
    ensures
        r == register_word(chars@.subrange(s as int, e as int)),
{
    let ghost w = chars@.subrange(s as int, e as int);
    if e - s < 2 || chars[s] != 'r' {
        return None;
    }
    let negative = chars[s + 1] == '-';
    let from = if negative { s + 2 } else { s + 1 };
    proof {
        assert(chars@.subrange(from as int, e as int) =~= w.subrange(from - s, w.len() as int));
    }
    match parse_number(chars, from, e) {
        Some(n) => {
            if n <= usize::MAX as u128 {
                if negative {
                    Some(RegisterNumber::Negative(n as usize))
                } else {
                    Some(RegisterNumber::Natural(n as usize))
                }
            } else {
                None
            }
        },
        None => None,
    }
}

/// Whether `chars[s..e]` is the word `halt`, in any case.
pub(crate) fn is_halt(chars: &Vec<char>, s: usize, e: usize) -> (r: bool)
    requires
        s <= e <= chars@.len(),
    ensures
        r == is_halt_word(chars@.subrange(s as int, e as int)),
{
    if e - s != 4 {
        return false;
    }
    let a = chars[s];
    let b = chars[s + 1];
    let c = chars[s + 2];
    let d = chars[s + 3];
    (a == 'h' || a == 'H') && (b == 'a' || b == 'A') && (c == 'l' || c == 'L') && (d == 't' || d
        == 'T')
}

/// Whether `chars[s..e]` is a label name.
pub(crate) fn is_label(chars: &Vec<char>, s: usize, e: usize) -> (r: bool)
    requires
        s <= e <= chars@.len(),
    ensures
        r == is_label_word(chars@.subrange(s as int, e as int)),
{
    let ghost w = chars@.subrange(s as int, e as int);
    if s == e {
        return false;
    }
    let mut i: usize = s;
    while i < e
        invariant
            s <= i <= e <= chars@.len(),
            w == chars@.subrange(s as int, e as int),
            forall|k: int| 0 <= k < i - s ==> is_label_char(#[trigger] w[k]),
        decreases e - i,
    {
        let c = chars[i];
        if !(('a' <= c && c <= 'z') || ('A' <= c && c <= 'Z') || ('0' <= c && c <= '9') || c
            == '_') {
            proof {
                assert(!is_label_char(w[i - s]));
            }
            return false;
        }
        proof {
            assert(w[i - s] == c);
        }
        i = i + 1;
    }
    true
}

/// The word at span `w`.
pub open spec fn word(chars: Seq<char>, w: (usize, usize)) -> Seq<char> {
    chars.subrange(w.0 as int, w.1 as int)
}

/// Spans that are words of `chars`.
pub open spec fn spans_ok(chars: Seq<char>, words: Seq<(usize, usize)>) -> bool {
    forall|k: int|
        0 <= k < words.len() ==> is_word_span(chars, (#[trigger] words[k]).0 as int, words[k].1 as int)
}

} // verus!
