use vstd::prelude::*;
use std::ops::RangeInclusive;
use range_union_find::{RangeUnionFind, RangeOperationError};
use crate::{SomeElementType, ElementView, elems_view, in_element, covered};

verus! {

/// A union of integer ranges, kept merged by `range_union_find`.
#[verifier::external_body]
pub struct SpanUnion {
    inner: RangeUnionFind<usize>,
}

#[verifier::external_type_specification]
#[verifier::external_body]
pub struct ExRangeOperationError(RangeOperationError);

/// The integers that a union of ranges holds.
pub uninterp spec fn union_members(u: SpanUnion) -> Set<int>;

/// Relies on `RangeUnionFind::new`: a new union holds no ranges.
#[verifier::external_body]
fn new_union() -> (u: SpanUnion)
    ensures
        union_members(u) == Set::<int>::empty(),
{
    SpanUnion { inner: RangeUnionFind::new() }
}

/// Relies on `RangeUnionFind::insert_range_pair`: for `start <= end` it succeeds and adds
/// every integer of `start..=end` to the union.
#[verifier::external_body]
fn insert_span(u: &mut SpanUnion, start: usize, end: usize) -> (r: Result<
    (),
    RangeOperationError,
>)
    requires
        start <= end,
    ensures
        r is Ok,
        union_members(*final(u)) == union_members(*old(u)).union(
            Set::new(|x: int| start <= x <= end),
        ),
{
    u.inner.insert_range_pair(&start, &end)
}

/// Relies on `RangeUnionFind::into_collection`: the union's ranges as inclusive bounds,
/// ascending, each non-empty, with a gap of at least one integer between neighbours
/// (adjacent and overlapping ranges are merged on insertion), covering exactly its members.
#[verifier::external_body]
fn into_spans(u: SpanUnion) -> (r: Vec<(usize, usize)>)
    ensures
        forall|i: int| 0 <= i < r.len() ==> (#[trigger] r@[i]).0 <= r@[i].1,
        forall|i: int, j: int|
            0 <= i < j < r.len() ==> (#[trigger] r@[i]).1 + 1 < (#[trigger] r@[j]).0,
        forall|x: int|
            #[trigger] union_members(u).contains(x) <==> exists|i: int|
                0 <= i < r.len() && #[trigger] in_span(r@[i], x),
{
    u.inner.into_collection::<Vec<RangeInclusive<usize>>>().into_iter().map(
        |s| (*s.start(), *s.end()),
    ).collect()
}

/// Whether `x` lies in the inclusive span `p.0..=p.1`.
pub open spec fn in_span(p: (usize, usize), x: int) -> bool {
    p.0 <= x <= p.1
}

/// The least member of an element.
pub open spec fn lower(e: ElementView) -> int {
    match e {
        ElementView::Individual(n) => n,
        ElementView::Range(lo, _, _) => lo,
    }
}

/// The greatest member of an element.
pub open spec fn upper(e: ElementView) -> int {
    match e {
        ElementView::Individual(n) => n,
        ElementView::Range(_, hi, _) => hi,
    }
}

/// An element in canonical form: a single integer, or a live range of at least two.
pub open spec fn element_canonical(e: ElementView) -> bool {
    match e {
        ElementView::Individual(_) => true,
        ElementView::Range(lo, hi, exhausted) => !exhausted && lo < hi,
    }
}

/// Elements strictly ascending, none overlapping or adjacent to another.
pub open spec fn ascending_apart(s: Seq<ElementView>) -> bool {
    forall|i: int, j: int| 0 <= i < j < s.len() ==> upper(#[trigger] s[i]) + 1 < lower(#[trigger] s[j])
}

/// The minimal representation of a set of integers as a list of elements.
pub open spec fn canonical(s: Seq<ElementView>) -> bool {
    &&& forall|i: int| 0 <= i < s.len() ==> element_canonical(#[trigger] s[i])
    &&& ascending_apart(s)
}

/// Two lists that cover the same integers.
pub open spec fn same_members(a: Seq<ElementView>, b: Seq<ElementView>) -> bool {
    forall|x: int| covered(a, x) == covered(b, x)
}

/// `out` is the canonical list covering what `input` covers.
pub open spec fn condensed_from(input: Seq<ElementView>, out: Seq<ElementView>) -> bool {
    canonical(out) && same_members(input, out)
}

/// The element that stands for the inclusive span `lo..=hi`.
pub open spec fn span_element(p: (usize, usize)) -> ElementView {
    if p.0 == p.1 {
        ElementView::Individual(p.0 as int)
    } else {
        ElementView::Range(p.0 as int, p.1 as int, false)
    }
}

proof fn lemma_canonical_bounds(e: ElementView, x: int)
    requires
        element_canonical(e),
    ensures
        in_element(e, x) <==> lower(e) <= x <= upper(e),
{
}

/// Dropping the first element of a canonical list leaves exactly the covered integers past it.
proof fn lemma_covered_rest(a: Seq<ElementView>, x: int)
    requires
        canonical(a),
        a.len() > 0,
    ensures
        covered(a.drop_first(), x) <==> (covered(a, x) && x > upper(a[0])),
{
    let r = a.drop_first();
    if covered(r, x) {
        let k = choose|k: int| 0 <= k < r.len() && #[trigger] in_element(r[k], x);
        assert(r[k] == a[k + 1]);
        lemma_canonical_bounds(a[k + 1], x);
        assert(upper(a[0]) + 1 < lower(a[k + 1]));
        assert(in_element(a[k + 1], x));
    }
    if covered(a, x) && x > upper(a[0]) {
        let i = choose|i: int| 0 <= i < a.len() && #[trigger] in_element(a[i], x);
        lemma_canonical_bounds(a[i], x);
        lemma_canonical_bounds(a[0], x);
        assert(i != 0);
        assert(r[i - 1] == a[i]);
        assert(in_element(r[i - 1], x));
    }
}

/// Every integer that a canonical list covers is at least its first element's lower bound.
proof fn lemma_covered_from_first(a: Seq<ElementView>, x: int)
    requires
        canonical(a),
        a.len() > 0,
        covered(a, x),
    ensures
        lower(a[0]) <= x,
{
    let i = choose|i: int| 0 <= i < a.len() && #[trigger] in_element(a[i], x);
    lemma_canonical_bounds(a[i], x);
    lemma_canonical_bounds(a[0], x);
    if i > 0 {
        assert(upper(a[0]) + 1 < lower(a[i]));
    }
}

/// A set of integers has one canonical representation.
pub proof fn lemma_canonical_unique(a: Seq<ElementView>, b: Seq<ElementView>)
    requires
        canonical(a),
        canonical(b),
        same_members(a, b),
    ensures
        a == b,
    decreases a.len(),
{
    if a.len() == 0 || b.len() == 0 {
        if b.len() > 0 {
            lemma_canonical_bounds(b[0], lower(b[0]));
            assert(in_element(b[0], lower(b[0])));
            assert(covered(b, lower(b[0])));
        }
        if a.len() > 0 {
            lemma_canonical_bounds(a[0], lower(a[0]));
            assert(in_element(a[0], lower(a[0])));
            assert(covered(a, lower(a[0])));
        }
        assert(a =~= b);
    } else {
        let la = lower(a[0]);
        let ha = upper(a[0]);
        let lb = lower(b[0]);
        let hb = upper(b[0]);
        lemma_canonical_bounds(a[0], la);
        lemma_canonical_bounds(b[0], lb);
        lemma_canonical_bounds(a[0], ha);
        lemma_canonical_bounds(b[0], hb);
        assert(in_element(a[0], la) && covered(a, la));
        assert(in_element(b[0], lb) && covered(b, lb));
        lemma_covered_from_first(b, la);
        lemma_covered_from_first(a, lb);
        assert(la == lb);
        assert(in_element(a[0], ha) && covered(a, ha));
        assert(in_element(b[0], hb) && covered(b, hb));
        if ha < hb {
            lemma_canonical_bounds(b[0], ha + 1);
            assert(in_element(b[0], ha + 1) && covered(b, ha + 1));
            lemma_covered_rest(a, ha + 1);
            lemma_covered_from_first(a.drop_first(), ha + 1);
            assert(a.drop_first()[0] == a[1]);
            assert(ha + 1 < lower(a[1]));
        }
        if hb < ha {
            lemma_canonical_bounds(a[0], hb + 1);
            assert(in_element(a[0], hb + 1) && covered(a, hb + 1));
            lemma_covered_rest(b, hb + 1);
            lemma_covered_from_first(b.drop_first(), hb + 1);
            assert(b.drop_first()[0] == b[1]);
            assert(hb + 1 < lower(b[1]));
        }
        assert(ha == hb);
        assert(a[0] == b[0]);
        let ra = a.drop_first();
        let rb = b.drop_first();
        assert(canonical(ra)) by {
            assert forall|i: int, j: int| 0 <= i < j < ra.len() implies upper(#[trigger] ra[i]) + 1
                < lower(#[trigger] ra[j]) by {
                assert(ra[i] == a[i + 1] && ra[j] == a[j + 1]);
            }
            assert forall|i: int| 0 <= i < ra.len() implies element_canonical(#[trigger] ra[i]) by {
                assert(ra[i] == a[i + 1]);
            }
        }
        assert(canonical(rb)) by {
            assert forall|i: int, j: int| 0 <= i < j < rb.len() implies upper(#[trigger] rb[i]) + 1
                < lower(#[trigger] rb[j]) by {
                assert(rb[i] == b[i + 1] && rb[j] == b[j + 1]);
            }
            assert forall|i: int| 0 <= i < rb.len() implies element_canonical(#[trigger] rb[i]) by {
                assert(rb[i] == b[i + 1]);
            }
        }
        assert forall|x: int| covered(ra, x) == covered(rb, x) by {
            lemma_covered_rest(a, x);
            lemma_covered_rest(b, x);
        }
        lemma_canonical_unique(ra, rb);
        assert(a =~= seq![a[0]] + ra);
        assert(b =~= seq![b[0]] + rb);
    }
}

/// Normalizing a list that is already normalized gives it back unchanged.
pub proof fn lemma_condense_idempotent(
    input: Seq<ElementView>,
    once: Seq<ElementView>,
    twice: Seq<ElementView>,
)
    requires
        condensed_from(input, once),
        condensed_from(once, twice),
    ensures
        twice == once,
{
    lemma_canonical_unique(once, twice);
}

/// A list that is strictly ascending, with no two elements overlapping or adjacent, normalizes
/// to itself.
pub proof fn lemma_condense_minimal_fixed(input: Seq<ElementView>, out: Seq<ElementView>)
    requires
        canonical(input),
        condensed_from(input, out),
    ensures
        out == input,
{
    lemma_canonical_unique(input, out);
}

/// A normalized list is strictly ascending by lower bound, and no two of its elements overlap
/// or are adjacent.
pub proof fn lemma_condensed_ordered(input: Seq<ElementView>, out: Seq<ElementView>)
    requires
        condensed_from(input, out),
    ensures
        forall|i: int, j: int|
            0 <= i < j < out.len() ==> lower(#[trigger] out[i]) < lower(#[trigger] out[j]),
        forall|i: int, j: int|
            0 <= i < j < out.len() ==> upper(#[trigger] out[i]) + 1 < lower(#[trigger] out[j]),
        forall|i: int, j: int, x: int|
            0 <= i < j < out.len() ==> !(#[trigger] in_element(out[i], x) && #[trigger] in_element(
                out[j],
                x,
            )),
{
    assert forall|i: int, j: int| 0 <= i < j < out.len() implies lower(#[trigger] out[i]) < lower(
        #[trigger] out[j],
    ) by {
        assert(element_canonical(out[i]));
    }
    assert forall|i: int, j: int, x: int| 0 <= i < j < out.len() implies !(#[trigger] in_element(
        out[i],
        x,
    ) && #[trigger] in_element(out[j], x)) by {
        lemma_canonical_bounds(out[i], x);
        lemma_canonical_bounds(out[j], x);
    }
}

/// A range whose start lies past its end holds no integer, and a list of it alone normalizes
/// to the empty list.
pub proof fn lemma_inverted_range_empty(lo: int, hi: int, exhausted: bool, out: Seq<ElementView>)
    requires
        lo > hi,
        condensed_from(seq![ElementView::Range(lo, hi, exhausted)], out),
    ensures
        forall|x: int| !in_element(ElementView::Range(lo, hi, exhausted), x),
        out.len() == 0,
{
    let input = seq![ElementView::Range(lo, hi, exhausted)];
    if out.len() > 0 {
        let x = lower(out[0]);
        lemma_canonical_bounds(out[0], x);
        assert(in_element(out[0], x));
        assert(covered(out, x));
        assert(covered(input, x));
        let i = choose|i: int| 0 <= i < input.len() && #[trigger] in_element(input[i], x);
        assert(input[i] == ElementView::Range(lo, hi, exhausted));
    }
}

/// Union the elements together to produce a set of individual elements and ranges that
/// represents the same set and reduces the amount of elements.
pub fn condense_selections(selections: Vec<SomeElementType>) -> (r: Vec<SomeElementType>)
    ensures
        condensed_from(elems_view(selections@), elems_view(r@)),
{
    let mut union = new_union();
    let mut i: usize = 0;
    while i < selections.len()
        invariant
            0 <= i <= selections.len(),
            forall|x: int|
                #[trigger] union_members(union).contains(x) <==> exists|j: int|
                    0 <= j < i && #[trigger] in_element(selections@[j]@, x),
        decreases selections.len() - i,
    {
        let ghost before = union;
        match &selections[i] {
            SomeElementType::Individual(n) => {
                let _done = insert_span(&mut union, *n, *n);
            },
            SomeElementType::Range(range) => {
                if !range.is_empty() {
                    let _done = insert_span(&mut union, *range.start(), *range.end());
                }
            },
        }
        assert forall|x: int| #[trigger] union_members(union).contains(x) <==> exists|j: int|
            0 <= j < i + 1 && #[trigger] in_element(selections@[j]@, x) by {
            if in_element(selections@[i as int]@, x) {
                assert(union_members(union).contains(x));
            }
            if union_members(union).contains(x) && !union_members(before).contains(x) {
                assert(in_element(selections@[i as int]@, x));
            }
        }
        i += 1;
    }
    let spans = into_spans(union);
    let mut out: Vec<SomeElementType> = Vec::new();
    let mut k: usize = 0;
    while k < spans.len()
        invariant
            0 <= k <= spans.len(),
            out.len() == k,
            forall|j: int| 0 <= j < k ==> (#[trigger] out@[j])@ == span_element(spans@[j]),
        decreases spans.len() - k,
    {
        let (lo, hi) = spans[k];
        if lo == hi {
            out.push(SomeElementType::Individual(lo));
        } else {
            out.push(SomeElementType::Range(RangeInclusive::new(lo, hi)));
        }
        k += 1;
    }
    proof {
        let ov = elems_view(out@);
        let iv = elems_view(selections@);
        assert forall|j: int| 0 <= j < ov.len() implies ov[j] == span_element(spans@[j]) by {
            assert(ov[j] == out@[j]@);
        }
        assert forall|j: int| 0 <= j < ov.len() implies element_canonical(#[trigger] ov[j]) by {
            assert(ov[j] == span_element(spans@[j]));
            assert(spans@[j].0 <= spans@[j].1);
        }
        assert forall|a: int, b: int| 0 <= a < b < ov.len() implies upper(#[trigger] ov[a]) + 1
            < lower(#[trigger] ov[b]) by {
            assert(ov[a] == span_element(spans@[a]));
            assert(ov[b] == span_element(spans@[b]));
            assert(spans@[a].1 + 1 < spans@[b].0);
        }
        assert forall|x: int| covered(iv, x) == covered(ov, x) by {
            if covered(iv, x) {
                let j = choose|j: int| 0 <= j < iv.len() && #[trigger] in_element(iv[j], x);
                assert(iv[j] == selections@[j]@);
                assert(union_members(union).contains(x));
                let s = choose|s: int|
                    0 <= s < spans.len() && #[trigger] in_span(spans@[s], x);
                assert(ov[s] == span_element(spans@[s]));
                assert(in_element(ov[s], x));
            }
            if covered(ov, x) {
                let s = choose|s: int| 0 <= s < ov.len() && #[trigger] in_element(ov[s], x);
                assert(ov[s] == span_element(spans@[s]));
                assert(in_span(spans@[s], x));
                assert(union_members(union).contains(x));
                let j = choose|j: int| 0 <= j < i && #[trigger] in_element(selections@[j]@, x);
                assert(iv[j] == selections@[j]@);
                assert(in_element(iv[j], x));
            }
        }
    }
    out
}

} // verus!
