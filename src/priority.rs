use vstd::prelude::*;

verus! {

/// The five dispatch tiers, lowest first.
#[derive(Debug, Clone, Copy, PartialEq, Eq, Structural, PartialOrd, Ord, Hash)]
pub enum Priority {
    Info,
    Coordinate,
    Blocking,
    Critical,
    DirectorOverride,
}

/// Number of tiers.
pub const PRIORITY_LEVELS: usize = 5;

/// Index of a tier, 0 for `Info` up to 4 for `DirectorOverride`.
pub open spec fn tier_index(p: Priority) -> nat {
    match p {
        Priority::Info => 0,
        Priority::Coordinate => 1,
        Priority::Blocking => 2,
        Priority::Critical => 3,
        Priority::DirectorOverride => 4,
    }
}

/// The tier with a given index; every index past 3 names the top tier.
pub open spec fn tier_of_index(i: int) -> Priority {
    if i <= 0 {
        Priority::Info
    } else if i == 1 {
        Priority::Coordinate
    } else if i == 2 {
        Priority::Blocking
    } else if i == 3 {
        Priority::Critical
    } else {
        Priority::DirectorOverride
    }
}

/// Tokens that one dispatch at this tier consumes; the top tier is free.
pub open spec fn tier_cost(p: Priority) -> nat {
    match p {
        Priority::Info => 1,
        Priority::Coordinate => 5,
        Priority::Blocking => 20,
        Priority::Critical => 100,
        Priority::DirectorOverride => 0,
    }
}

/// The tier raised by `levels`, capped at `Critical`; the top tier boosted comes out as
/// `Critical`.
pub open spec fn boosted(p: Priority, levels: nat) -> Priority {
    let target = tier_index(p) + levels;
    tier_of_index(if target < 3 { target as int } else { 3 })
}

pub open spec fn tier_label(p: Priority) -> Seq<char> {
    match p {
        Priority::Info => "info"@,
        Priority::Coordinate => "coordinate"@,
        Priority::Blocking => "blocking"@,
        Priority::Critical => "critical"@,
        Priority::DirectorOverride => "directorOverride"@,
    }
}

impl Priority {
    pub fn as_index(self) -> (r: usize)
        ensures
            r == tier_index(self),
            r < PRIORITY_LEVELS,
    {
        match self {
            Priority::Info => 0,
            Priority::Coordinate => 1,
            Priority::Blocking => 2,
            Priority::Critical => 3,
            Priority::DirectorOverride => 4,
        }
    }

    pub fn as_str(self) -> (r: &'static str)
        ensures
            r@ == tier_label(self),
    {
        match self {
            Priority::Info => "info",
            Priority::Coordinate => "coordinate",
            Priority::Blocking => "blocking",
            Priority::Critical => "critical",
            Priority::DirectorOverride => "directorOverride",
        }
    }

    /// Whole tokens that a dispatch at this tier costs.
    pub fn token_cost(self) -> (r: u64)
        ensures
            r == tier_cost(self),
    {
        match self {
            Priority::Info => 1,
            Priority::Coordinate => 5,
            Priority::Blocking => 20,
            Priority::Critical => 100,
            Priority::DirectorOverride => 0,
        }
    }

    pub fn boost(self, levels: u8) -> (r: Priority)
        ensures
            r == boosted(self, levels as nat),
    {
        let sum: usize = self.as_index() + levels as usize;
        let target: usize = if sum < 3 { sum } else { 3 };
        Self::from_index(target)
    }

    pub fn from_index(index: usize) -> (r: Priority)
        ensures
            r == tier_of_index(index as int),
    {
        match index {
            0 => Priority::Info,
            1 => Priority::Coordinate,
            2 => Priority::Blocking,
            3 => Priority::Critical,
            _ => Priority::DirectorOverride,
        }
    }
}

} // verus!
