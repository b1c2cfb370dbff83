use vstd::prelude::*;

verus! {

/// Fixed-point one for retention factors: factors are parts per billion.
pub const RETENTION_ONE: u64 = 1_000_000_000;

/// Cells whose score falls below this (in millionths, i.e. 0.01) are pruned.
pub const PRUNE_BELOW: u64 = 10_000;

/// Product of two fixed-point factors, rounded down.
pub open spec fn fx_mul(a: nat, b: nat) -> nat {
    (a * b) / (RETENTION_ONE as nat)
}

/// `f` raised to the power `n` in fixed point, each product rounded down,
/// by repeated squaring.
pub open spec fn retention_pow(f: nat, n: nat) -> nat
    decreases n,
{
    if n == 0 {
        RETENTION_ONE as nat
    } else if n % 2 == 0 {
        let h = retention_pow(f, n / 2);
        fx_mul(h, h)
    } else {
        fx_mul(retention_pow(f, (n - 1) as nat), f)
    }
}

proof fn lemma_fx_mul_bounded(a: nat, b: nat)
    requires
        a <= RETENTION_ONE,
        b <= RETENTION_ONE,
    ensures
        fx_mul(a, b) <= RETENTION_ONE,
        fx_mul(a, b) <= a,
{
    assert(a * b <= a * (RETENTION_ONE as nat)) by (nonlinear_arith)
        requires
            b <= RETENTION_ONE,
    ;
    assert((a * (RETENTION_ONE as nat)) / (RETENTION_ONE as nat) == a) by (nonlinear_arith);
    assert((a * b) / (RETENTION_ONE as nat) <= (a * (RETENTION_ONE as nat)) / (
    RETENTION_ONE as nat)) by (nonlinear_arith)
        requires
            a * b <= a * (RETENTION_ONE as nat),
    ;
}

proof fn lemma_retention_bounded(f: nat, n: nat)
    requires
        f <= RETENTION_ONE,
    ensures
        retention_pow(f, n) <= RETENTION_ONE,
    decreases n,
{
    if n == 0 {
    } else if n % 2 == 0 {
        lemma_retention_bounded(f, n / 2);
        lemma_fx_mul_bounded(retention_pow(f, n / 2), retention_pow(f, n / 2));
    } else {
        lemma_retention_bounded(f, (n - 1) as nat);
        lemma_fx_mul_bounded(retention_pow(f, (n - 1) as nat), f);
    }
}

fn fixed_mul(a: u64, b: u64) -> (r: u64)
    requires
        a <= RETENTION_ONE,
        b <= RETENTION_ONE,
    ensures
        r == fx_mul(a as nat, b as nat),
        r <= RETENTION_ONE,
{
    proof {
        lemma_fx_mul_bounded(a as nat, b as nat);
    }
    let p: u128 = (a as u128) * (b as u128);
    (p / (RETENTION_ONE as u128)) as u64
}

/// Fixed-point retention after `n` milliseconds at `f` per millisecond.
pub fn retention_after(f: u64, n: u64) -> (r: u64)
    requires
        f <= RETENTION_ONE,
    ensures
        r == retention_pow(f as nat, n as nat),
        r <= RETENTION_ONE,
    decreases n,
{
    proof {
        lemma_retention_bounded(f as nat, n as nat);
    }
    if n == 0 {
        RETENTION_ONE
    } else if n % 2 == 0 {
        let h = retention_after(f, n / 2);
        fixed_mul(h, h)
    } else {
        let h = retention_after(f, n - 1);
        fixed_mul(h, f)
    }
}

/// A score decayed over `elapsed` milliseconds.
pub open spec fn decayed(value: nat, f: nat, elapsed: nat) -> nat {
    (value * retention_pow(f, elapsed)) / (RETENTION_ONE as nat)
}

/// One resource's heat: a score in millionths and the instant (ms) it was last decayed.
#[derive(Debug, Clone)]
pub struct HeatCell {
    pub resource: String,
    pub value: u64,
    pub updated_at: u64,
}

/// What a heat summary reports: the hottest resource and its score, and how many cells remain.
#[derive(Debug, Clone, PartialEq, Eq)]
pub struct HeatSummary {
    pub hottest_resource: Option<String>,
    pub hottest_score: u64,
    pub cell_count: usize,
}

/// Decayed counters per resource.
#[derive(Debug, Clone)]
pub struct HeatMap {
    /// Share of a score kept per millisecond, in parts per billion.
    pub retention_per_ms: u64,
    pub increment: u64,
    pub max_value: u64,
    pub cells: Vec<HeatCell>,
}

/// A cell read at `now`: decayed when `now` is later than its last update, and stamped `now`.
pub open spec fn cell_at(c: HeatCell, f: nat, now: u64) -> HeatCell {
    if now > c.updated_at {
        HeatCell {
            resource: c.resource,
            value: decayed(c.value as nat, f, (now - c.updated_at) as nat) as u64,
            updated_at: now,
        }
    } else {
        c
    }
}

/// Every cell read at `now`, those under the pruning floor left out, order kept.
pub open spec fn cells_at(cells: Seq<HeatCell>, f: nat, now: u64) -> Seq<HeatCell>
    decreases cells.len(),
{
    if cells.len() == 0 {
        seq![]
    } else {
        let rest = cells_at(cells.drop_last(), f, now);
        let c = cell_at(cells.last(), f, now);
        if c.value < PRUNE_BELOW {
            rest
        } else {
            rest.push(c)
        }
    }
}

/// Index of the first cell with the greatest score, or -1 when no score is above zero.
pub open spec fn hottest_index(cells: Seq<HeatCell>) -> int
    decreases cells.len(),
{
    if cells.len() == 0 {
        -1
    } else {
        let i = hottest_index(cells.drop_last());
        let best = if i < 0 { 0 } else { cells[i].value as int };
        if cells.last().value as int > best {
            cells.len() - 1
        } else {
            i
        }
    }
}

pub open spec fn summary_of(cells: Seq<HeatCell>) -> (Option<Seq<char>>, nat, nat) {
    let i = hottest_index(cells);
    if i < 0 {
        (None, 0, cells.len())
    } else {
        (Some(cells[i].resource@), cells[i].value as nat, cells.len())
    }
}

pub open spec fn summary_view(s: HeatSummary) -> (Option<Seq<char>>, nat, nat) {
    (
        match s.hottest_resource {
            Some(r) => Some(r@),
            None => None,
        },
        s.hottest_score as nat,
        s.cell_count as nat,
    )
}

pub open spec fn resources_unique(cells: Seq<HeatCell>) -> bool {
    forall|i: int, j: int|
        0 <= i < j < cells.len() ==> #[trigger] cells[i].resource@ != #[trigger] cells[j].resource@
}

pub open spec fn names_resource(cells: Seq<HeatCell>, k: Seq<char>) -> bool {
    exists|j: int| 0 <= j < cells.len() && cells[j].resource@ == k
}

pub open spec fn scores_capped(cells: Seq<HeatCell>, max: u64) -> bool {
    forall|i: int| 0 <= i < cells.len() ==> #[trigger] cells[i].value <= max
}

proof fn lemma_decayed_le(value: nat, f: nat, elapsed: nat)
    requires
        f <= RETENTION_ONE,
    ensures
        decayed(value, f, elapsed) <= value,
{
    lemma_retention_bounded(f, elapsed);
    let r = retention_pow(f, elapsed);
    assert(value * r <= value * (RETENTION_ONE as nat)) by (nonlinear_arith)
        requires
            r <= RETENTION_ONE,
    ;
    assert((value * (RETENTION_ONE as nat)) / (RETENTION_ONE as nat) == value) by (nonlinear_arith);
    assert((value * r) / (RETENTION_ONE as nat) <= (value * (RETENTION_ONE as nat)) / (
    RETENTION_ONE as nat)) by (nonlinear_arith)
        requires
            value * r <= value * (RETENTION_ONE as nat),
    ;
}

proof fn lemma_cells_at_props(cells: Seq<HeatCell>, f: nat, now: u64, max: u64)
    requires
        f <= RETENTION_ONE,
        scores_capped(cells, max),
    ensures
        scores_capped(cells_at(cells, f, now), max),
        cells_at(cells, f, now).len() <= cells.len(),
        forall|i: int|
            0 <= i < cells_at(cells, f, now).len() ==> {
                &&& (#[trigger] cells_at(cells, f, now)[i]).value >= PRUNE_BELOW
                &&& cells_at(cells, f, now)[i].updated_at >= now
                &&& names_resource(cells, cells_at(cells, f, now)[i].resource@)
            },
    decreases cells.len(),
{
    if cells.len() > 0 {
        let rest = cells.drop_last();
        assert(scores_capped(rest, max)) by {
            assert forall|i: int| 0 <= i < rest.len() implies #[trigger] rest[i].value <= max by {
                assert(rest[i] == cells[i]);
            }
        }
        lemma_cells_at_props(rest, f, now, max);
        let c = cells.last();
        assert(c.value <= max) by {
            assert(c == cells[cells.len() - 1]);
        }
        if now > c.updated_at {
            lemma_decayed_le(c.value as nat, f, (now - c.updated_at) as nat);
        }
        let r0 = cells_at(rest, f, now);
        assert forall|i: int| 0 <= i < r0.len() implies names_resource(rest, (#[trigger] r0[i]).resource@) by {
        }
        let out = cells_at(cells, f, now);
        assert forall|i: int| 0 <= i < out.len() implies names_resource(
            cells,
            (#[trigger] out[i]).resource@,
        ) by {
            let r = cells_at(rest, f, now);
            if i < r.len() {
                assert(names_resource(rest, r[i].resource@));
                let j = choose|j: int| 0 <= j < rest.len() && rest[j].resource@ == r[i].resource@;
                assert(cells[j] == rest[j]);
            } else {
                assert(cells[cells.len() - 1].resource@ == out[i].resource@);
            }
        }
    }
}

/// Pruning and decay leave a subsequence: names stay distinct.
proof fn lemma_cells_at_unique(cells: Seq<HeatCell>, f: nat, now: u64)
    requires
        f <= RETENTION_ONE,
        resources_unique(cells),
    ensures
        resources_unique(cells_at(cells, f, now)),
        forall|i: int|
            0 <= i < cells_at(cells, f, now).len() ==> (#[trigger] cells_at(cells, f, now)[i]).resource@
                != cells.last().resource@ || (cells_at(cells, f, now).len() > 0 && i
                == cells_at(cells, f, now).len() - 1 && cell_at(cells.last(), f, now).value
                >= PRUNE_BELOW),
    decreases cells.len(),
{
    if cells.len() > 0 {
        let rest = cells.drop_last();
        assert(resources_unique(rest)) by {
            assert forall|i: int, j: int| 0 <= i < j < rest.len() implies #[trigger] rest[i].resource@
                != #[trigger] rest[j].resource@ by {
                assert(rest[i] == cells[i] && rest[j] == cells[j]);
            }
        }
        lemma_cells_at_unique(rest, f, now);
        lemma_cells_at_props(rest, f, now, u64::MAX);
        let r = cells_at(rest, f, now);
        assert forall|i: int| 0 <= i < r.len() implies (#[trigger] r[i]).resource@ != cells.last().resource@ by {
            assert(names_resource(rest, r[i].resource@));
            let j = choose|j: int| 0 <= j < rest.len() && rest[j].resource@ == r[i].resource@;
            assert(rest[j] == cells[j]);
        }
    }
}

proof fn lemma_cells_at_fixed(cells: Seq<HeatCell>, f: nat, now: u64)
    requires
        forall|i: int|
            0 <= i < cells.len() ==> (#[trigger] cells[i]).value >= PRUNE_BELOW && cells[i].updated_at
                >= now,
    ensures
        cells_at(cells, f, now) == cells,
    decreases cells.len(),
{
    if cells.len() > 0 {
        let rest = cells.drop_last();
        assert forall|i: int| 0 <= i < rest.len() implies (#[trigger] rest[i]).value >= PRUNE_BELOW
            && rest[i].updated_at >= now by {
            assert(rest[i] == cells[i]);
        }
        lemma_cells_at_fixed(rest, f, now);
        assert(cells.last() == cells[cells.len() - 1]);
        assert(rest.push(cells.last()) =~= cells);
    }
}

/// Reading the map twice at the same instant, with no bump between, changes nothing the
/// second time: the cells and so the summary are those of the first reading.
pub proof fn lemma_summary_idempotent(cells: Seq<HeatCell>, f: nat, now: u64)
    requires
        f <= RETENTION_ONE,
    ensures
        cells_at(cells_at(cells, f, now), f, now) == cells_at(cells, f, now),
        summary_of(cells_at(cells_at(cells, f, now), f, now)) == summary_of(cells_at(cells, f, now)),
{
    lemma_cells_at_props(cells, f, now, u64::MAX);
    let once = cells_at(cells, f, now);
    assert forall|i: int| 0 <= i < once.len() implies (#[trigger] once[i]).value >= PRUNE_BELOW
        && once[i].updated_at >= now by {
    }
    lemma_cells_at_fixed(once, f, now);
}

/// A score after a bump: decayed, raised by the increment, capped at the maximum.
pub open spec fn bumped_score(decayed_value: nat, increment: nat, max: nat) -> nat {
    if decayed_value + increment > max {
        max
    } else {
        decayed_value + increment
    }
}

pub open spec fn cell_bumped(c: HeatCell, f: nat, now: u64, increment: u64, max: u64) -> HeatCell {
    HeatCell {
        resource: c.resource,
        value: bumped_score(cell_at(c, f, now).value as nat, increment as nat, max as nat) as u64,
        updated_at: now,
    }
}

/// The cells with `r`'s cell (a fresh one at zero when there is none) bumped at `now`.
pub open spec fn with_bump(
    cells: Seq<HeatCell>,
    r: String,
    f: nat,
    now: u64,
    increment: u64,
    max: u64,
) -> Seq<HeatCell> {
    if names_resource(cells, r@) {
        let i = choose|i: int| 0 <= i < cells.len() && cells[i].resource@ == r@;
        cells.update(i, cell_bumped(cells[i], f, now, increment, max))
    } else {
        cells.push(
            cell_bumped(HeatCell { resource: r, value: 0, updated_at: now }, f, now, increment, max),
        )
    }
}

impl HeatCell {
    pub fn duplicate(&self) -> (r: HeatCell)
        ensures
            r == *self,
    {
        HeatCell { resource: self.resource.clone(), value: self.value, updated_at: self.updated_at }
    }
}

impl HeatMap {
    pub open spec fn wf(&self) -> bool {
        &&& self.retention_per_ms <= RETENTION_ONE
        &&& resources_unique(self.cells@)
        &&& scores_capped(self.cells@, self.max_value)
    }

    /// `retention_per_ms` above one is taken as one (no decay).
    pub fn new(retention_per_ms: u64, increment: u64, max_value: u64) -> (r: HeatMap)
        ensures
            r.wf(),
            r.cells@.len() == 0,
            r.retention_per_ms == if retention_per_ms > RETENTION_ONE {
                RETENTION_ONE
            } else {
                retention_per_ms
            },
            r.increment == increment,
            r.max_value == max_value,
    {
        let f = if retention_per_ms > RETENTION_ONE {
            RETENTION_ONE
        } else {
            retention_per_ms
        };
        HeatMap { retention_per_ms: f, increment, max_value, cells: Vec::new() }
    }

    /// Adds one unit of heat to `resource` at `now` and then reports as `summary` does.
    pub fn bump(&mut self, resource: &String, now: u64) -> (s: HeatSummary)
        requires
            old(self).wf(),
        ensures
            final(self).wf(),
            final(self).retention_per_ms == old(self).retention_per_ms,
            final(self).increment == old(self).increment,
            final(self).max_value == old(self).max_value,
            final(self).cells@ == cells_at(
                with_bump(
                    old(self).cells@,
                    *resource,
                    old(self).retention_per_ms as nat,
                    now,
                    old(self).increment,
                    old(self).max_value,
                ),
                old(self).retention_per_ms as nat,
                now,
            ),
            summary_view(s) == summary_of(final(self).cells@),
    {
        let f = self.retention_per_ms;
        let ghost before_bump = self.cells@;
        let mut i: usize = 0;
        let mut found = false;
        while i < self.cells.len()
            invariant_except_break
                !found,
            invariant
                0 <= i <= self.cells@.len(),
                forall|k: int| 0 <= k < i ==> (#[trigger] self.cells@[k]).resource@ != resource@,
            ensures
                0 <= i <= self.cells@.len(),
                forall|k: int| 0 <= k < i ==> (#[trigger] self.cells@[k]).resource@ != resource@,
                found ==> i < self.cells@.len() && self.cells@[i as int].resource@ == resource@,
                !found ==> i == self.cells@.len(),
            decreases self.cells@.len() - i,
        {
            if crate::text::same_text(&self.cells[i].resource, resource) {
                found = true;
                break;
            }
            i += 1;
        }
        if !found {
            proof {
                assert forall|a: int, b: int|
                    0 <= a < b < self.cells@.len() + 1 implies #[trigger] self.cells@.push(
                    HeatCell { resource: *resource, value: 0, updated_at: now },
                )[a].resource@ != #[trigger] self.cells@.push(
                    HeatCell { resource: *resource, value: 0, updated_at: now },
                )[b].resource@ by {
                    if b == self.cells@.len() {
                        assert(self.cells@[a].resource@ != resource@);
                    } else {
                        assert(self.cells@[a].resource@ != self.cells@[b].resource@);
                    }
                }
            }
            self.cells.push(HeatCell { resource: resource.clone(), value: 0, updated_at: now });
        }
        let mut c = self.cells[i].duplicate();
        Self::decay_cell(f, &mut c, now);
        let raised: u64 = if c.value > self.max_value || self.increment > self.max_value - c.value {
            self.max_value
        } else {
            c.value + self.increment
        };
        c.value = raised;
        c.updated_at = now;
        let ghost before = self.cells@;
        self.cells.set(i, c);
        proof {
            if found {
                assert(names_resource(before_bump, resource@));
                let k = choose|k: int| 0 <= k < before_bump.len() && before_bump[k].resource@ == resource@;
                assert(k == i);
                assert(self.cells@ =~= with_bump(before_bump, *resource, f as nat, now, self.increment, self.max_value));
            } else {
                assert(!names_resource(before_bump, resource@));
                assert(self.cells@ =~= with_bump(before_bump, *resource, f as nat, now, self.increment, self.max_value));
            }
            assert forall|a: int, b: int| 0 <= a < b < self.cells@.len() implies #[trigger] self.cells@[a].resource@
                != #[trigger] self.cells@[b].resource@ by {
                assert(before[a].resource@ != before[b].resource@);
            }
            assert forall|a: int| 0 <= a < self.cells@.len() implies #[trigger] self.cells@[a].value
                <= self.max_value by {
                assert(before[a].value <= self.max_value);
            }
        }
        self.summary(now)
    }

    fn decay_cell(f: u64, cell: &mut HeatCell, now: u64)
        requires
            f <= RETENTION_ONE,
        ensures
            *final(cell) == cell_at(*old(cell), f as nat, now),
            final(cell).value <= old(cell).value,
    {
        if now > cell.updated_at {
            let r = retention_after(f, now - cell.updated_at);
            proof {
                lemma_decayed_le(cell.value as nat, f as nat, (now - cell.updated_at) as nat);
            }
            let p: u128 = (cell.value as u128) * (r as u128);
            cell.value = (p / (RETENTION_ONE as u128)) as u64;
            cell.updated_at = now;
        }
    }

    /// Decays every cell to `now`, prunes those under the floor, and reports the hottest.
    pub fn summary(&mut self, now: u64) -> (s: HeatSummary)
        requires
            old(self).wf(),
        ensures
            final(self).wf(),
            final(self).cells@ == cells_at(old(self).cells@, old(self).retention_per_ms as nat, now),
            final(self).retention_per_ms == old(self).retention_per_ms,
            final(self).increment == old(self).increment,
            final(self).max_value == old(self).max_value,
            summary_view(s) == summary_of(final(self).cells@),
    {
        let f = self.retention_per_ms;
        let ghost old_cells = self.cells@;
        let mut kept: Vec<HeatCell> = Vec::new();
        let mut i: usize = 0;
        while i < self.cells.len()
            invariant
                f <= RETENTION_ONE,
                self.cells@ == old_cells,
                0 <= i <= old_cells.len(),
                kept@ == cells_at(old_cells.subrange(0, i as int), f as nat, now),
            decreases old_cells.len() - i,
        {
            let mut c = self.cells[i].duplicate();
            assert(c == old_cells[i as int]);
            Self::decay_cell(f, &mut c, now);
            proof {
                let sub = old_cells.subrange(0, i + 1);
                assert(sub.drop_last() =~= old_cells.subrange(0, i as int));
                assert(sub.last() == old_cells[i as int]);
            }
            if c.value >= PRUNE_BELOW {
                kept.push(c);
            }
            i += 1;
        }
        assert(old_cells.subrange(0, old_cells.len() as int) =~= old_cells);
        proof {
            lemma_cells_at_unique(old_cells, f as nat, now);
            lemma_cells_at_props(old_cells, f as nat, now, self.max_value);
        }
        self.cells = kept;
        let mut best: usize = 0;
        let mut found = false;
        let mut j: usize = 0;
        while j < self.cells.len()
            invariant
                0 <= j <= self.cells@.len(),
                found ==> best < j,
                hottest_index(self.cells@.subrange(0, j as int)) == if found {
                    best as int
                } else {
                    -1
                },
            decreases self.cells@.len() - j,
        {
            let sub = Ghost(self.cells@.subrange(0, j + 1));
            assert(sub@.drop_last() =~= self.cells@.subrange(0, j as int));
            proof {
                if found {
                    assert(self.cells@.subrange(0, j as int)[best as int] == self.cells@[best as int]);
                }
            }
            let better = if found {
                self.cells[j].value > self.cells[best].value
            } else {
                self.cells[j].value > 0
            };
            if better {
                best = j;
                found = true;
            }
            proof {
                if found {
                    assert(sub@[best as int] == self.cells@[best as int]);
                }
            }
            j += 1;
        }
        assert(self.cells@.subrange(0, self.cells@.len() as int) =~= self.cells@);
        if found {
            HeatSummary {
                hottest_resource: Some(self.cells[best].resource.clone()),
                hottest_score: self.cells[best].value,
                cell_count: self.cells.len(),
            }
        } else {
            HeatSummary { hottest_resource: None, hottest_score: 0, cell_count: self.cells.len() }
        }
    }
}

} // verus!
