//! Target bounds and the named, tunable generation parameters, with their
//! validation. An invalid configuration is rejected when the tree value is
//! constructed; generation itself cannot fail.

use vstd::prelude::*;
use crate::geom::SCALE;

verus! {

/// The rectangular display area the finished tree is scaled into, in cells.
#[derive(Clone, Copy, Debug, PartialEq, Eq, Structural)]
pub struct Bounds {
    pub width: u16,
    pub height: u16,
}

/// Which growth strategy the generator runs.
#[derive(Clone, Copy, Debug, PartialEq, Eq, Structural)]
pub enum Strategy {
    /// Direction-biased recursive growth: jittered straight steps organised
    /// into tiers, with periodic branching.
    Jitter,
    /// Angle-constrained rejection sampling: curved growth segments placed
    /// subject to angular and non-intersection constraints.
    Curved,
}

/// The named tunable parameters of generation. Distances are in milli-units;
/// angular quantities are in direction ticks (sixteenths of a full turn).
#[derive(Clone, Copy, Debug, PartialEq, Eq, Structural)]
pub struct Config {
    /// How many branching generations remain at the trunk; `0` asks for the
    /// degenerate single-node tree. Default `2`, at most `16`.
    pub tiers: u8,
    /// A branch may spawn every `branch_cooldown` growth steps. Default `1`;
    /// must be positive.
    pub branch_cooldown: u8,
    /// Recursion depth of leaf-cluster placement at a terminal node.
    /// Default `3`, at most `8`.
    pub leaf_depth: u8,
    /// The growth strategy. Default `Strategy::Jitter`.
    pub strategy: Strategy,
    /// Curved strategy: least length of one growth segment, in milli-units.
    /// Default `2000`; must be positive and at most `max_dist`.
    pub min_dist: i64,
    /// Curved strategy: greatest length of one growth segment, in
    /// milli-units. Default `6000`, at most `100_000`.
    pub max_dist: i64,
    /// Curved strategy: a child's direction must differ from its parent's
    /// incoming direction by more than this many ticks. Default `1`.
    pub phi_tolerance: u8,
    /// Curved strategy: a child's direction must differ from an
    /// already-placed sibling's by more than this many ticks. Default `2`.
    pub phi_neigh_tolerance: u8,
    /// Curved strategy: greatest branch depth from the seed point.
    /// Default `5`, at most `32`.
    pub max_depth: u8,
    /// Curved strategy: how many candidate draws a single placement may
    /// reject before the branch is abandoned. Default `20`; must be positive.
    pub retry_budget: u8,
}

/// Which rule an invalid configuration or bounds value breaks.
#[derive(Clone, Copy, Debug, PartialEq, Eq, Structural)]
pub enum ConfigError {
    /// `bounds.width` is zero.
    ZeroWidth,
    /// `bounds.height` is zero.
    ZeroHeight,
    /// `tiers` exceeds `16`.
    TooManyTiers,
    /// `branch_cooldown` is zero.
    ZeroCooldown,
    /// `leaf_depth` exceeds `8`.
    LeafDepthTooLarge,
    /// The curved strategy's distances break `0 < min_dist <= max_dist
    /// <= 100_000`.
    BadDistance,
    /// An angular tolerance reaches half a turn (8 ticks) or more.
    BadTolerance,
    /// `max_depth` exceeds `32`.
    DepthTooLarge,
    /// `retry_budget` is zero.
    ZeroRetryBudget,
}

impl Bounds {
    /// Positive in both directions.
    pub open spec fn valid(self) -> bool {
        self.width >= 1 && self.height >= 1
    }
}

impl Config {
    /// Every parameter within the range its field documents.
    pub open spec fn valid(self) -> bool {
        &&& self.tiers <= 16
        &&& self.branch_cooldown >= 1
        &&& self.leaf_depth <= 8
        &&& 0 < self.min_dist <= self.max_dist <= 100 * SCALE
        &&& self.phi_tolerance < 8
        &&& self.phi_neigh_tolerance < 8
        &&& self.max_depth <= 32
        &&& self.retry_budget >= 1
    }

    /// The documented default of every parameter.
    pub open spec fn spec_default() -> Config {
        Config {
            tiers: 2,
            branch_cooldown: 1,
            leaf_depth: 3,
            strategy: Strategy::Jitter,
            min_dist: (2 * SCALE) as i64,
            max_dist: (6 * SCALE) as i64,
            phi_tolerance: 1,
            phi_neigh_tolerance: 2,
            max_depth: 5,
            retry_budget: 20,
        }
    }

    /// The documented default of every parameter.
    pub fn default_config() -> (c: Config)
        ensures
            c == Config::spec_default(),
            c.valid(),
    {
        Config {
            tiers: 2,
            branch_cooldown: 1,
            leaf_depth: 3,
            strategy: Strategy::Jitter,
            min_dist: 2 * SCALE,
            max_dist: 6 * SCALE,
            phi_tolerance: 1,
            phi_neigh_tolerance: 2,
            max_depth: 5,
            retry_budget: 20,
        }
    }

    /// The verdict `validate` reaches: the first rule broken, in field
    /// order, or `Ok` on valid parameters over valid bounds.
    pub open spec fn spec_validate(self, bounds: Bounds) -> Result<(), ConfigError> {
        if bounds.width == 0 {
            Err(ConfigError::ZeroWidth)
        } else if bounds.height == 0 {
            Err(ConfigError::ZeroHeight)
        } else if self.tiers > 16 {
            Err(ConfigError::TooManyTiers)
        } else if self.branch_cooldown == 0 {
            Err(ConfigError::ZeroCooldown)
        } else if self.leaf_depth > 8 {
            Err(ConfigError::LeafDepthTooLarge)
        } else if !(0 < self.min_dist <= self.max_dist <= 100 * SCALE) {
            Err(ConfigError::BadDistance)
        } else if self.phi_tolerance >= 8 || self.phi_neigh_tolerance >= 8 {
            Err(ConfigError::BadTolerance)
        } else if self.max_depth > 32 {
            Err(ConfigError::DepthTooLarge)
        } else if self.retry_budget == 0 {
            Err(ConfigError::ZeroRetryBudget)
        } else {
            Ok(())
        }
    }

    /// Checks every documented range, and names the first rule broken, in
    /// field order; returns `Ok` exactly on valid parameters over valid
    /// bounds.
    pub fn validate(self, bounds: Bounds) -> (r: Result<(), ConfigError>)
        ensures
            r == self.spec_validate(bounds),
            r is Ok <==> self.valid() && bounds.valid(),
    {
        if bounds.width == 0 {
            Err(ConfigError::ZeroWidth)
        } else if bounds.height == 0 {
            Err(ConfigError::ZeroHeight)
        } else if self.tiers > 16 {
            Err(ConfigError::TooManyTiers)
        } else if self.branch_cooldown == 0 {
            Err(ConfigError::ZeroCooldown)
        } else if self.leaf_depth > 8 {
            Err(ConfigError::LeafDepthTooLarge)
        } else if !(0 < self.min_dist && self.min_dist <= self.max_dist && self.max_dist <= 100
            * SCALE) {
            Err(ConfigError::BadDistance)
        } else if self.phi_tolerance >= 8 || self.phi_neigh_tolerance >= 8 {
            Err(ConfigError::BadTolerance)
        } else if self.max_depth > 32 {
            Err(ConfigError::DepthTooLarge)
        } else if self.retry_budget == 0 {
            Err(ConfigError::ZeroRetryBudget)
        } else {
            Ok(())
        }
    }
}

} // verus!
