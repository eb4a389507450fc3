//! Build parameters and the failures a build can report.
use vstd::prelude::*;

verus! {

/// Most references (primitives, or pieces of primitives) a build accepts.
pub const MAX_REFERENCES: usize = 1073741824;

/// Most bits of one axis that enter a spatial sort key.
pub const MAX_AXIS_BITS: u8 = 21;

/// How far, in sorted order, a cluster looks for a partner on each side.
#[derive(Clone, Copy, Debug, PartialEq, Eq, Structural)]
pub enum SearchDistance {
    VeryLow,
    Low,
    Medium,
    High,
}

impl SearchDistance {
    /// The number of neighbours examined on each side.
    pub open spec fn spec_window(self) -> int {
        match self {
            SearchDistance::VeryLow => 2,
            SearchDistance::Low => 6,
            SearchDistance::Medium => 14,
            SearchDistance::High => 24,
        }
    }

    /// The number of neighbours examined on each side.
    pub fn window(self) -> (w: usize)
        ensures
            w == self.spec_window(),
            1 <= w <= 24,
    {
        match self {
            SearchDistance::VeryLow => 2,
            SearchDistance::Low => 6,
            SearchDistance::Medium => 14,
            SearchDistance::High => 24,
        }
    }
}

/// Why a build was refused.
#[derive(Clone, Copy, Debug, PartialEq, Eq, Structural)]
pub enum BuildError {
    /// `reinsertion_batch_ratio` is zero.
    ZeroBatchRatio,
    /// `max_prims_per_leaf` is zero.
    ZeroLeafCapacity,
    /// There is no primitive to build over.
    NoPrimitives,
    /// There are more than `MAX_REFERENCES` primitives.
    TooManyPrimitives,
    /// The primitive at `index` has a bound that is inverted or reaches
    /// beyond `COORD_LIMIT`.
    UnboundedGeometry { index: usize },
}

/// Relative weights of the two terms of the surface-area cost.
#[derive(Clone, Copy, Debug, PartialEq, Eq, Structural)]
pub struct SahWeights {
    /// Cost of visiting an internal node.
    pub traversal: u16,
    /// Cost of testing one reference of a leaf.
    pub intersection: u16,
}

impl SahWeights {
    /// Both terms weigh the same.
    pub fn balanced() -> (w: SahWeights)
        ensures
            w == (SahWeights { traversal: 1, intersection: 1 }),
    {
        SahWeights { traversal: 1, intersection: 1 }
    }
}

/// The tunables of a build.
#[derive(Clone, Copy, Debug, PartialEq, Eq, Structural)]
pub struct BuildConfig {
    /// Split large triangles into several references before clustering.
    pub pre_split: bool,
    /// Search window of the clustering stage.
    pub ploc_search_distance: SearchDistance,
    /// Bits of the spatial sort key; a third of them goes to each axis,
    /// at least 1 and at most `MAX_AXIS_BITS`.
    pub sort_precision: u8,
    /// Number of clustering rounds that use the full search window; later
    /// rounds look one neighbour to each side only.
    pub search_depth_threshold: u32,
    /// Share of the nodes, in thousandths, that one optimisation pass tries
    /// to move; must not be zero, and anything above 1000 counts as 1000.
    pub reinsertion_batch_ratio: u32,
    /// Most references a leaf of the result may hold; must not be zero.
    pub max_prims_per_leaf: u32,
}

impl BuildConfig {
    /// The failure that this configuration causes, if any.
    pub open spec fn spec_check(self) -> Option<BuildError> {
        if self.reinsertion_batch_ratio == 0 {
            Some(BuildError::ZeroBatchRatio)
        } else if self.max_prims_per_leaf == 0 {
            Some(BuildError::ZeroLeafCapacity)
        } else {
            None
        }
    }

    /// The failure that this configuration causes, if any.
    pub fn check(&self) -> (e: Option<BuildError>)
        ensures
            e == self.spec_check(),
    {
        if self.reinsertion_batch_ratio == 0 {
            Some(BuildError::ZeroBatchRatio)
        } else if self.max_prims_per_leaf == 0 {
            Some(BuildError::ZeroLeafCapacity)
        } else {
            None
        }
    }

    /// A configuration with a medium search window, a 63-bit sort key, a
    /// batch of half the nodes and leaves of up to three references.
    pub fn standard() -> (c: BuildConfig)
        ensures
            c.spec_check().is_none(),
            c == (BuildConfig {
                pre_split: false,
                ploc_search_distance: SearchDistance::Medium,
                sort_precision: 63,
                search_depth_threshold: 2,
                reinsertion_batch_ratio: 500,
                max_prims_per_leaf: 3,
            }),
    {
        BuildConfig {
            pre_split: false,
            ploc_search_distance: SearchDistance::Medium,
            sort_precision: 63,
            search_depth_threshold: 2,
            reinsertion_batch_ratio: 500,
            max_prims_per_leaf: 3,
        }
    }
}

/// Bits of a sort key of `sort_precision` bits that go to each axis: a
/// third of them, at least 1 and at most `MAX_AXIS_BITS`.
pub open spec fn spec_axis_bits(sort_precision: u8) -> int {
    let third = sort_precision as int / 3;
    if third < 1 {
        1
    } else if third > MAX_AXIS_BITS as int {
        MAX_AXIS_BITS as int
    } else {
        third
    }
}

/// Bits of a sort key of `sort_precision` bits that go to each axis.
pub fn axis_bits(sort_precision: u8) -> (b: u8)
    ensures
        b == spec_axis_bits(sort_precision),
        1 <= b <= MAX_AXIS_BITS,
{
    let third: u8 = sort_precision / 3;
    if third < 1 {
        1
    } else if third > MAX_AXIS_BITS {
        MAX_AXIS_BITS
    } else {
        third
    }
}

/// The search window of clustering round `round`: the full window `full`
/// for the first `threshold` rounds, one neighbour to each side after.
pub open spec fn spec_round_window(full: int, round: int, threshold: int) -> int {
    if round < threshold {
        full
    } else {
        1
    }
}

/// The search window of clustering round `round`.
pub fn round_window(full: usize, round: u32, threshold: u32) -> (w: usize)
    ensures
        w == spec_round_window(full as int, round as int, threshold as int),
{
    if round < threshold {
        full
    } else {
        1
    }
}

} // verus!
