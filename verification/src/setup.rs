//! The first stage of a build: one reference per primitive, with the
//! figures that later stages need.
use vstd::prelude::*;
use crate::aabb::Aabb;
use crate::config::{BuildError, MAX_REFERENCES};
use crate::cwbvh::lemma_div_within;
use crate::ploc::{first_invalid, spec_input_error};
use crate::primitive::{Boundable, PrimitiveReference};

verus! {

/// The bounds of a list of items.
pub open spec fn bounds_of<T: Boundable>(items: Seq<T>) -> Seq<Aabb> {
    Seq::new(items.len(), |i: int| items[i].bound())
}

/// One reference per bound, in order, each naming its own position.
pub open spec fn unsplit(bounds: Seq<Aabb>) -> Seq<PrimitiveReference> {
    Seq::new(bounds.len(), |i: int| PrimitiveReference { aabb: bounds[i], index: i as u32 })
}

/// The largest half-area among the first `n` boxes; 0 for `n == 0`.
pub open spec fn largest_area(boxes: Seq<Aabb>, n: int) -> int
    decreases n,
{
    if n <= 0 {
        0
    } else {
        let rest = largest_area(boxes, n - 1);
        let a = boxes[n - 1].spec_half_area();
        if a > rest {
            a
        } else {
            rest
        }
    }
}

/// The summed half-area of the first `n` boxes.
pub open spec fn total_area(boxes: Seq<Aabb>, n: int) -> int
    decreases n,
{
    if n <= 0 {
        0
    } else {
        total_area(boxes, n - 1) + boxes[n - 1].spec_half_area()
    }
}

/// The references of a build, and the largest and the average (rounded
/// down) of the half-areas of their boxes.
pub struct ReferenceSet {
    pub references: Vec<PrimitiveReference>,
    pub largest_half_area: u64,
    pub average_half_area: u64,
}

/// Derives the bound of every item. Fails where there is no item, where
/// there are too many, and where a bound is not valid.
pub fn references_of<T: Boundable>(items: &[T]) -> (r: Result<ReferenceSet, BuildError>)
    ensures
        match r {
            Ok(set) => {
                let bounds = bounds_of(items@);
                &&& spec_input_error(unsplit(bounds)).is_none()
                &&& set.references@ == unsplit(bounds)
                &&& set.largest_half_area == largest_area(bounds, bounds.len() as int)
                &&& set.average_half_area == total_area(bounds, bounds.len() as int)
                    / (bounds.len() as int)
            },
            Err(e) => spec_input_error(unsplit(bounds_of(items@))) == Some(e),
        },
{
    let n: usize = items.len();
    if n == 0 {
        return Err(BuildError::NoPrimitives);
    }
    if n > MAX_REFERENCES {
        return Err(BuildError::TooManyPrimitives);
    }
    let ghost bounds = bounds_of(items@);
    let ghost whole = unsplit(bounds);
    let mut references: Vec<PrimitiveReference> = Vec::new();
    let mut largest: u64 = 0;
    let mut total: u128 = 0;
    let mut i: usize = 0;
    while i < n
        invariant
            i <= n,
            n == items@.len(),
            n <= MAX_REFERENCES,
            bounds == bounds_of(items@),
            whole == unsplit(bounds),
            references@.len() == i,
            forall|j: int| 0 <= j < i ==> #[trigger] references@[j] == whole[j],
            first_invalid(whole, 0) == first_invalid(whole, i as int),
            largest == largest_area(bounds, i as int),
            total == total_area(bounds, i as int),
            total <= i * 0xffff_ffff_ffff_ffff,
        decreases n - i,
    {
        let b = items[i].aabb();
        assert(whole[i as int].aabb == b);
        if !b.is_valid() {
            return Err(BuildError::UnboundedGeometry { index: i });
        }
        let area: u64 = b.half_area();
        if area > largest {
            largest = area;
        }
        total = total + area as u128;
        references.push(PrimitiveReference { aabb: b, index: i as u32 });
        i = i + 1;
    }
    proof {
        lemma_div_within(total as int, n as int, 0xffff_ffff_ffff_ffff);
        assert(references@ =~= whole);
    }
    let average: u64 = (total / (n as u128)) as u64;
    Ok(ReferenceSet { references, largest_half_area: largest, average_half_area: average })
}

} // verus!
