use vstd::prelude::*;
use std::ops::RangeInclusive;
use vstd::string::StringSliceAdditionalSpecFns;
use crate::{Selection, SelectionView, SomeElementType, ElementView, ErrorKind, Error, elems_view};

verus! {

/// An ASCII decimal digit.
pub open spec fn is_digit(c: u8) -> bool {
    48 <= c <= 57
}

/// A comma, a semicolon, a space or a tab.
pub open spec fn is_separator(c: u8) -> bool {
    c == 44 || c == 59 || c == 32 || c == 9
}

/// ASCII letters folded to lower case; every other byte unchanged.
pub open spec fn ascii_lower(c: u8) -> u8 {
    if 65 <= c <= 90 {
        (c + 32) as u8
    } else {
        c
    }
}

/// The number of digits starting at `i`.
pub open spec fn digit_run(s: Seq<u8>, i: int) -> nat
    decreases s.len() - i,
{
    if 0 <= i < s.len() && is_digit(s[i]) {
        1 + digit_run(s, i + 1)
    } else {
        0
    }
}

/// The number of separators starting at `i`.
pub open spec fn separator_run(s: Seq<u8>, i: int) -> nat
    decreases s.len() - i,
{
    if 0 <= i < s.len() && is_separator(s[i]) {
        1 + separator_run(s, i + 1)
    } else {
        0
    }
}

/// The base-10 value of a string of digits.
pub open spec fn digits_value(d: Seq<u8>) -> int
    decreases d.len(),
{
    if d.len() == 0 {
        0
    } else {
        digits_value(d.drop_last()) * 10 + (d.last() - 48)
    }
}

/// The value of the digits that start at `i`.
pub open spec fn number_at(s: Seq<u8>, i: int) -> int {
    digits_value(s.subrange(i, i + digit_run(s, i)))
}

/// Whether `s` begins with the lower-case ASCII word `kw`, in any letter case.
pub open spec fn starts_with_word(s: Seq<u8>, kw: Seq<u8>) -> bool {
    kw.len() <= s.len() && forall|k: int| 0 <= k < kw.len() ==> ascii_lower(#[trigger] s[k]) == kw[k]
}

/// The keyword that selects nothing.
pub open spec fn word_none() -> Seq<u8> {
    seq![110u8, 111u8, 110u8, 101u8]
}

/// The keyword that selects everything.
pub open spec fn word_all() -> Seq<u8> {
    seq![97u8, 108u8, 108u8]
}

/// `head` followed by what `tail` parsed, or the error that stopped `tail`.
pub open spec fn prepend(head: Seq<ElementView>, tail: Result<Seq<ElementView>, ErrorKind>) -> Result<
    Seq<ElementView>,
    ErrorKind,
> {
    match tail {
        Ok(rest) => Ok(head + rest),
        Err(k) => Err(k),
    }
}

/// The elements of the list that starts at `i`: each a number or `number-number`, followed by
/// separators, or by the end of the input.
pub open spec fn elements_from(s: Seq<u8>, i: int) -> Result<Seq<ElementView>, ErrorKind>
    decreases s.len() - i,
{
    let d1 = digit_run(s, i);
    let j = i + d1;
    if d1 == 0 {
        Err(ErrorKind::Digit)
    } else if number_at(s, i) > usize::MAX {
        Err(ErrorKind::MapRes)
    } else {
        let ranged = j < s.len() && s[j] == 45;
        let k = j + 1;
        let d2 = digit_run(s, k);
        if ranged && d2 == 0 {
            Err(ErrorKind::Digit)
        } else if ranged && number_at(s, k) > usize::MAX {
            Err(ErrorKind::MapRes)
        } else {
            let e = if ranged {
                ElementView::Range(number_at(s, i), number_at(s, k), false)
            } else {
                ElementView::Individual(number_at(s, i))
            };
            let n = if ranged {
                k + d2
            } else {
                j
            };
            proof {
                lemma_digit_run_bound(s, i);
                lemma_digit_run_bound(s, k);
                lemma_separator_run_bound(s, n);
            }
            if n >= s.len() {
                Ok(seq![e])
            } else if separator_run(s, n) == 0 {
                Err(ErrorKind::Eof)
            } else if n + separator_run(s, n) >= s.len() {
                Ok(seq![e])
            } else {
                prepend(seq![e], elements_from(s, n + separator_run(s, n)))
            }
        }
    }
}

/// What a choice string denotes before its elements are merged, or why it is rejected.
pub open spec fn raw_selection(s: Seq<u8>) -> Result<SelectionView, ErrorKind> {
    if s.len() == 0 {
        Ok(SelectionView::Nothing)
    } else if starts_with_word(s, word_none()) {
        if s.len() == word_none().len() {
            Ok(SelectionView::Nothing)
        } else {
            Err(ErrorKind::Eof)
        }
    } else if starts_with_word(s, word_all()) {
        if s.len() == word_all().len() {
            Ok(SelectionView::All)
        } else {
            Err(ErrorKind::Eof)
        }
    } else {
        match elements_from(s, 0) {
            Ok(v) => Ok(SelectionView::Subset(v)),
            Err(k) => Err(k),
        }
    }
}

/// A run of digits ends within the input.
pub proof fn lemma_digit_run_bound(s: Seq<u8>, i: int)
    requires
        0 <= i,
    ensures
        i < s.len() ==> i + digit_run(s, i) <= s.len(),
        i >= s.len() ==> digit_run(s, i) == 0,
    decreases s.len() - i,
{
    if 0 <= i < s.len() && is_digit(s[i]) {
        lemma_digit_run_bound(s, i + 1);
    }
}

/// A run of separators ends within the input.
pub proof fn lemma_separator_run_bound(s: Seq<u8>, i: int)
    requires
        0 <= i,
    ensures
        i < s.len() ==> i + separator_run(s, i) <= s.len(),
        i >= s.len() ==> separator_run(s, i) == 0,
    decreases s.len() - i,
{
    if 0 <= i < s.len() && is_separator(s[i]) {
        lemma_separator_run_bound(s, i + 1);
    }
}

/// A string of digits is worth at least each of its prefixes, and nothing negative.
pub proof fn lemma_digits_value_prefix(d: Seq<u8>, k: int)
    requires
        0 <= k <= d.len(),
        forall|m: int| 0 <= m < d.len() ==> is_digit(#[trigger] d[m]),
    ensures
        0 <= digits_value(d.subrange(0, k)) <= digits_value(d),
    decreases d.len(),
{
    if d.len() > 0 {
        let p = d.drop_last();
        if k == d.len() {
            lemma_digits_value_prefix(p, p.len() as int);
            assert(p.subrange(0, p.len() as int) =~= p);
            assert(d.subrange(0, k) =~= d);
        } else {
            lemma_digits_value_prefix(p, k);
            lemma_digits_value_prefix(p, p.len() as int);
            assert(p.subrange(0, p.len() as int) =~= p);
            assert(p.subrange(0, k) =~= d.subrange(0, k));
        }
    }
}

/// The index just past the digits that start at `i`.
fn digits_end(b: &[u8], i: usize) -> (r: usize)
    requires
        i <= b.len(),
    ensures
        r == i + digit_run(b@, i as int),
        r <= b.len(),
{
    let mut j = i;
    while j < b.len() && 48 <= b[j] && b[j] <= 57
        invariant
            i <= j <= b.len(),
            digit_run(b@, i as int) == (j - i) + digit_run(b@, j as int),
        decreases b.len() - j,
    {
        j += 1;
    }
    j
}

/// The index just past the separators that start at `i`.
fn separators_end(b: &[u8], i: usize) -> (r: usize)
    requires
        i <= b.len(),
    ensures
        r == i + separator_run(b@, i as int),
        r <= b.len(),
{
    let mut j = i;
    while j < b.len() && (b[j] == 44 || b[j] == 59 || b[j] == 32 || b[j] == 9)
        invariant
            i <= j <= b.len(),
            separator_run(b@, i as int) == (j - i) + separator_run(b@, j as int),
        decreases b.len() - j,
    {
        j += 1;
    }
    j
}

/// The value of the digits `b[i..e]`, or `None` where it does not fit in `usize`.
fn read_number(b: &[u8], i: usize, e: usize) -> (r: Option<usize>)
    requires
        i <= e <= b.len(),
        forall|m: int| i <= m < e ==> is_digit(#[trigger] b@[m]),
    ensures
        0 <= digits_value(b@.subrange(i as int, e as int)),
        r == (if digits_value(b@.subrange(i as int, e as int)) <= usize::MAX {
            Some(digits_value(b@.subrange(i as int, e as int)) as usize)
        } else {
            None
        }),
{
    let ghost whole = b@.subrange(i as int, e as int);
    let mut acc: usize = 0;
    let mut j = i;
    proof {
        assert(b@.subrange(i as int, i as int) =~= Seq::<u8>::empty());
        assert forall|m: int| 0 <= m < whole.len() implies is_digit(#[trigger] whole[m]) by {
            assert(whole[m] == b@[i + m]);
        }
        lemma_digits_value_prefix(whole, whole.len() as int);
        assert(whole.subrange(0, whole.len() as int) =~= whole);
    }
    while j < e
        invariant
            i <= j <= e <= b.len(),
            whole == b@.subrange(i as int, e as int),
            forall|m: int| i <= m < e ==> is_digit(#[trigger] b@[m]),
            acc as int == digits_value(b@.subrange(i as int, j as int)),
        decreases e - j,
    {
        let d = (b[j] - 48) as usize;
        let ghost next = b@.subrange(i as int, j + 1);
        proof {
            assert(next.drop_last() =~= b@.subrange(i as int, j as int));
            assert(whole.subrange(0, j + 1 - i) =~= next);
            assert forall|m: int| 0 <= m < whole.len() implies is_digit(#[trigger] whole[m]) by {
                assert(whole[m] == b@[i + m]);
            }
            lemma_digits_value_prefix(whole, j + 1 - i);
        }
        match acc.checked_mul(10) {
            Some(t) => match t.checked_add(d) {
                Some(v) => {
                    acc = v;
                },
                None => {
                    return None;
                },
            },
            None => {
                proof {
                    assert(digits_value(next) >= acc * 10);
                }
                return None;
            },
        }
        j += 1;
    }
    proof {
        assert(b@.subrange(i as int, j as int) =~= whole);
    }
    Some(acc)
}

/// Whether `b` begins with the lower-case ASCII word `kw`, in any letter case.
fn starts_with_ci(b: &[u8], kw: &Vec<u8>) -> (r: bool)
    ensures
        r == starts_with_word(b@, kw@),
{
    if kw.len() > b.len() {
        return false;
    }
    let mut k: usize = 0;
    while k < kw.len()
        invariant
            k <= kw.len() <= b.len(),
            forall|m: int| 0 <= m < k ==> ascii_lower(#[trigger] b@[m]) == kw@[m],
        decreases kw.len() - k,
    {
        let c = b[k];
        let low = if 65 <= c && c <= 90 {
            c + 32
        } else {
            c
        };
        if low != kw[k] {
            return false;
        }
        k += 1;
    }
    true
}

/// The elements of a non-empty list of numbers and ranges.
fn parse_elements(b: &[u8]) -> (r: Result<Vec<SomeElementType>, ErrorKind>)
    requires
        b.len() > 0,
    ensures
        match r {
            Ok(v) => elements_from(b@, 0) == Ok::<Seq<ElementView>, ErrorKind>(elems_view(v@)),
            Err(k) => elements_from(b@, 0) == Err::<Seq<ElementView>, ErrorKind>(k),
        },
{
    let mut out: Vec<SomeElementType> = Vec::new();
    let mut p: usize = 0;
    proof {
        assert(elems_view(out@) =~= Seq::<ElementView>::empty());
        match elements_from(b@, 0) {
            Ok(rest) => {
                assert(Seq::<ElementView>::empty() + rest =~= rest);
            },
            Err(_) => {},
        }
    }
    loop
        invariant
            p < b.len(),
            elements_from(b@, 0) == prepend(elems_view(out@), elements_from(b@, p as int)),
        decreases b.len() - p,
    {
        let j = digits_end(b, p);
        if j == p {
            return Err(ErrorKind::Digit);
        }
        proof {
            assert forall|m: int| p <= m < j implies is_digit(#[trigger] b@[m]) by {
                lemma_digit_run_prefix(b@, p as int, m);
            }
        }
        let v1 = match read_number(b, p, j) {
            Some(v) => v,
            None => {
                return Err(ErrorKind::MapRes);
            },
        };
        let ranged = j < b.len() && b[j] == 45;
        let mut n = j;
        let elem = if ranged {
            let k = j + 1;
            let e2 = digits_end(b, k);
            if e2 == k {
                return Err(ErrorKind::Digit);
            }
            proof {
                assert forall|m: int| k <= m < e2 implies is_digit(#[trigger] b@[m]) by {
                    lemma_digit_run_prefix(b@, k as int, m);
                }
            }
            let v2 = match read_number(b, k, e2) {
                Some(v) => v,
                None => {
                    return Err(ErrorKind::MapRes);
                },
            };
            n = e2;
            SomeElementType::Range(RangeInclusive::new(v1, v2))
        } else {
            SomeElementType::Individual(v1)
        };
        let ghost before = elems_view(out@);
        let ghost tail = seq![elem@];
        if n == b.len() {
            out.push(elem);
            proof {
                assert(elems_view(out@) =~= before + tail);
            }
            return Ok(out);
        }
        let m = separators_end(b, n);
        if m == n {
            return Err(ErrorKind::Eof);
        }
        out.push(elem);
        proof {
            assert(elems_view(out@) =~= before + tail);
        }
        if m == b.len() {
            return Ok(out);
        }
        proof {
            match elements_from(b@, m as int) {
                Ok(rest) => {
                    assert(before + (tail + rest) =~= (before + tail) + rest);
                },
                Err(_) => {},
            }
        }
        p = m;
    }
}

/// Each byte of a run of digits is a digit.
pub proof fn lemma_digit_run_prefix(s: Seq<u8>, i: int, m: int)
    requires
        0 <= i <= m < i + digit_run(s, i),
    ensures
        is_digit(s[m]),
    decreases m - i,
{
    if m > i {
        lemma_digit_run_prefix(s, i + 1, m);
    }
}

/// Parses a choice string to a [`Selection`]. This does not do any de-duplicating or condensing
/// of parsed ranges.
pub fn parse(input: &str) -> (r: Result<Selection, Error>)
    ensures
        crate::outcome(r) == raw_selection(input.spec_bytes()),
{
    let b = input.as_bytes();
    if b.len() == 0 {
        return Ok(Selection::Nothing);
    }
    let none_word: Vec<u8> = vec![110u8, 111u8, 110u8, 101u8];
    let all_word: Vec<u8> = vec![97u8, 108u8, 108u8];
    proof {
        assert(none_word@ =~= word_none());
        assert(all_word@ =~= word_all());
    }
    if starts_with_ci(b, &none_word) {
        if b.len() == none_word.len() {
            return Ok(Selection::Nothing);
        }
        return Err(Error::ParsingFailed(ErrorKind::Eof));
    }
    if starts_with_ci(b, &all_word) {
        if b.len() == all_word.len() {
            return Ok(Selection::All);
        }
        return Err(Error::ParsingFailed(ErrorKind::Eof));
    }
    match parse_elements(b) {
        Ok(v) => Ok(Selection::Subset(v)),
        Err(k) => Err(Error::ParsingFailed(k)),
    }
}

} // verus!
