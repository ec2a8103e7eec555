use vstd::prelude::*;
use std::ops::RangeInclusive;
use std::str::FromStr;
use vstd::std_specs::cmp::PartialOrdIs;
use vstd::std_specs::cmp::PartialOrdSpec;

/// The grammar of choice strings.
pub mod parser;

/// Reduction of element lists to their canonical form.
pub mod condense;

pub use parser::parse as parse_raw;
pub use condense::condense_selections;
use condense::condensed_from;
use parser::raw_selection;
use vstd::string::StringSliceAdditionalSpecFns;

verus! {

/// Relies on `RangeInclusive::start`: the lower bound the range was built with.
pub assume_specification<Idx>[ RangeInclusive::<Idx>::start ](r: &RangeInclusive<Idx>) -> (s:
    &Idx)
    ensures
        *s == r@.start,
;

/// Relies on `RangeInclusive::end`: the upper bound the range was built with.
pub assume_specification<Idx>[ RangeInclusive::<Idx>::end ](r: &RangeInclusive<Idx>) -> (e: &Idx)
    ensures
        *e == r@.end,
;

/// Relies on `RangeInclusive::is_empty`: a range holds no items when iteration exhausted it or
/// when its start does not lie at or below its end.
pub assume_specification<Idx: PartialOrd<Idx>>[ RangeInclusive::<Idx>::is_empty ](
    r: &RangeInclusive<Idx>,
) -> (b: bool) where Idx: PartialOrd
    ensures
        Idx::obeys_partial_cmp_spec() ==> b == (r@.exhausted || !r@.start.is_le(&r@.end)),
;

/// The category of input at which a choice string stopped matching the grammar.
#[derive(Debug, Clone, Copy, PartialEq, Eq)]
pub enum ErrorKind {
    /// Digits were expected (an element, or the end of a range after `-`).
    Digit,
    /// The end of the input was expected.
    Eof,
    /// A number does not fit in `usize`.
    MapRes,
}

/// Error type for errors that may arise during the parsing of choice strings.
#[derive(Debug, Clone, PartialEq)]
#[non_exhaustive]
pub enum Error {
    ParsingFailed(ErrorKind),
}

/// A parsed selection. Can represent all, none, or some set of ranges and items.
#[derive(Debug, PartialEq)]
pub enum Selection {
    /// All elements are in the selected set
    All,
    /// Some elements are in the selected set. The list of selections are in the Vec.
    Subset(Vec<SomeElementType>),
    /// No elements are in the selected set
    Nothing,
}

/// A selected element. Can either be an individual item, or a range of items.
#[derive(Debug, PartialEq)]
pub enum SomeElementType {
    Individual(usize),
    Range(RangeInclusive<usize>),
}

/// The mathematical content of a `Selection`.
pub enum SelectionView {
    All,
    Subset(Seq<ElementView>),
    Nothing,
}

impl View for Selection {
    type V = SelectionView;

    open spec fn view(&self) -> SelectionView {
        match self {
            Selection::All => SelectionView::All,
            Selection::Subset(v) => SelectionView::Subset(elems_view(v@)),
            Selection::Nothing => SelectionView::Nothing,
        }
    }
}

/// A parse result by its view, or the category of its error.
pub open spec fn outcome(r: Result<Selection, Error>) -> Result<SelectionView, ErrorKind> {
    match r {
        Ok(sel) => Ok(sel@),
        Err(Error::ParsingFailed(k)) => Err(k),
    }
}

/// The mathematical content of a `SomeElementType`.
pub enum ElementView {
    Individual(int),
    /// Start, end, and whether the range was exhausted by iteration.
    Range(int, int, bool),
}

impl View for SomeElementType {
    type V = ElementView;

    open spec fn view(&self) -> ElementView {
        match self {
            SomeElementType::Individual(n) => ElementView::Individual(*n as int),
            SomeElementType::Range(r) => ElementView::Range(
                r@.start as int,
                r@.end as int,
                r@.exhausted,
            ),
        }
    }
}

/// The elements of a list, each by its view.
pub open spec fn elems_view(v: Seq<SomeElementType>) -> Seq<ElementView> {
    v.map_values(|e: SomeElementType| e@)
}

/// Whether `x` is a member of the element.
pub open spec fn in_element(e: ElementView, x: int) -> bool {
    match e {
        ElementView::Individual(n) => x == n,
        ElementView::Range(lo, hi, exhausted) => !exhausted && lo <= x <= hi,
    }
}

/// Whether `x` is a member of some element of the list.
pub open spec fn covered(s: Seq<ElementView>, x: int) -> bool {
    exists|i: int| 0 <= i < s.len() && #[trigger] in_element(s[i], x)
}

/// Whether `x` is a member of the set that the selection represents.
pub open spec fn selects(sel: Selection, x: int) -> bool {
    match sel {
        Selection::All => true,
        Selection::Nothing => false,
        Selection::Subset(v) => covered(elems_view(v@), x),
    }
}

impl SomeElementType {
    /// Whether `item` is a member of this element.
    pub fn contains_item(&self, item: usize) -> (r: bool)
        ensures
            r == in_element(self@, item as int),
    {
        match self {
            SomeElementType::Individual(num) => item == *num,
            SomeElementType::Range(range) => {
                !range.is_empty() && *range.start() <= item && item <= *range.end()
            },
        }
    }
}

impl Selection {
    /// Check if the selection contains an item. Returns true if All, false if Nothing,
    /// and checks included elements if Subset.
    pub fn contains_item(&self, item: usize) -> (r: bool)
        ensures
            r == selects(*self, item as int),
    {
        match self {
            Selection::Subset(v) => {
                let mut i: usize = 0;
                while i < v.len()
                    invariant
                        0 <= i <= v.len(),
                        selects(*self, item as int) == covered(elems_view(v@), item as int),
                        forall|j: int| 0 <= j < i ==> !in_element(#[trigger] v@[j]@, item as int),
                    decreases v.len() - i,
                {
                    if v[i].contains_item(item) {
                        assert(elems_view(v@)[i as int] == v@[i as int]@);
                        assert(in_element(elems_view(v@)[i as int], item as int));
                        return true;
                    }
                    i += 1;
                }
                proof {
                    assert forall|j: int| 0 <= j < elems_view(v@).len() implies !in_element(
                        #[trigger] elems_view(v@)[j],
                        item as int,
                    ) by {
                        assert(elems_view(v@)[j] == v@[j]@);
                    }
                }
                false
            },
            Selection::All => true,
            Selection::Nothing => false,
        }
    }
}

/// `out` is `raw` with the elements of a `Subset` reduced to their canonical form.
pub open spec fn condensed_selection(raw: SelectionView, out: SelectionView) -> bool {
    match raw {
        SelectionView::Subset(a) => match out {
            SelectionView::Subset(b) => condensed_from(a, b),
            _ => false,
        },
        _ => out == raw,
    }
}

/// Parse a choice string input to a [`Selection`]. Additionally reduces the set of ranges to
/// the minimum representable by using a union operation.
pub fn parse(input: &str) -> (r: Result<Selection, Error>)
    ensures
        match raw_selection(input.spec_bytes()) {
            Ok(raw) => r is Ok && condensed_selection(raw, r->Ok_0@),
            Err(k) => outcome(r) == Err::<SelectionView, ErrorKind>(k),
        },
{
    match parse_raw(input) {
        Ok(Selection::Subset(v)) => Ok(Selection::Subset(condense_selections(v))),
        other => other,
    }
}

impl FromStr for Selection {
    type Err = Error;

    fn from_str(s: &str) -> (r: Result<Self, Self::Err>)
        ensures
            match raw_selection(s.spec_bytes()) {
                Ok(raw) => r is Ok && condensed_selection(raw, r->Ok_0@),
                Err(k) => outcome(r) == Err::<SelectionView, ErrorKind>(k),
            },
    {
        parse(s)
    }
}

} // verus!
