//! Blocks that use custom tables, and the strategies they could change to.

use crate::amount::Amount;
use crate::matrix::{
    best_alternative, best_of, best_tables, choose_tables, custom_among, region_views, Alternative,
    MatrixHeaderCost, MatrixRegion, RegionView, MODE_BITS, NUM_SLOTS, SLOT_BITS,
};
use crate::strategy::{
    covered_blocks_x_of, covered_blocks_y_of, covered_x, covered_y, STRATEGY_DCT, STRATEGY_DCT16X16,
    STRATEGY_DCT16X32, STRATEGY_DCT16X8, STRATEGY_DCT32X16, STRATEGY_DCT32X32, STRATEGY_DCT32X64,
    STRATEGY_DCT64X32, STRATEGY_DCT8X16,
};
use crate::strategy_map::{firsts, fits_in, with_first, AcStrategyImage, Layout, Placement};
use crate::rerank_band::lemma_firsts;
use crate::tiling::tiled;
use vstd::prelude::*;

verus! {

/// Which table slot a strategy uses, by strategy code; none where no custom table
/// exists for it.
pub struct SlotTable {
    pub slots: [Option<u8>; 21],
}

impl SlotTable {
    /// Every slot named is one of the nine.
    pub open spec fn wf(&self) -> bool {
        forall|s: int|
            0 <= s < 21 && (#[trigger] self.slots@[s]) is Some ==> self.slots@[s]->0 < NUM_SLOTS
    }

    /// The slot of a strategy.
    pub open spec fn slot(&self, strategy: u8) -> Option<u8> {
        if strategy < 21 {
            self.slots@[strategy as int]
        } else {
            None
        }
    }

    /// The bit of a strategy's slot, 0 where it has none.
    pub open spec fn bit(&self, strategy: u8) -> u16 {
        match self.slot(strategy) {
            Some(s) => SLOT_BITS@[s as int],
            None => 0,
        }
    }

    /// The slot that a strategy uses.
    pub fn slot_of(&self, strategy: u8) -> (r: Option<u8>)
        ensures
            r == self.slot(strategy),
    {
        if strategy < 21 {
            self.slots[strategy as usize]
        } else {
            None
        }
    }

    /// The bit of the slot that a strategy uses, 0 where it has none.
    pub fn bit_of(&self, strategy: u8) -> (r: u16)
        requires
            self.wf(),
        ensures
            r == self.bit(strategy),
    {
        match self.slot_of(strategy) {
            Some(s) => {
                assert(self.slots@[strategy as int] is Some);
                SLOT_BITS[s as usize]
            },
            None => 0,
        }
    }
}

/// A first block that uses a custom table.
#[derive(Clone, Copy, Debug, PartialEq, Eq, Structural)]
pub struct MatrixSite {
    pub dc: usize,
    pub bx: usize,
    pub by: usize,
    pub strategy: u8,
}

/// A first block uses a custom table.
pub open spec fn uses_custom(t: SlotTable, custom: u16, s: Placement) -> bool {
    t.slot(s.strategy) is Some && custom & t.bit(s.strategy) != 0
}

/// The tables used by the leading `n` first blocks, added to `used`.
pub open spec fn used_by(
    t: SlotTable,
    custom: u16,
    blocks: Seq<Placement>,
    used: u16,
    n: int,
) -> u16
    decreases n,
{
    if n <= 0 {
        used
    } else {
        let head = used_by(t, custom, blocks, used, n - 1);
        if uses_custom(t, custom, blocks[n - 1]) {
            head | t.bit(blocks[n - 1].strategy)
        } else {
            head
        }
    }
}

/// The leading `n` first blocks of group `dc` that use the custom table of a
/// slot.
pub open spec fn users_of(
    t: SlotTable,
    custom: u16,
    slot: int,
    dc: int,
    blocks: Seq<Placement>,
    n: int,
) -> Seq<MatrixSite>
    decreases n,
{
    if n <= 0 {
        Seq::empty()
    } else {
        let head = users_of(t, custom, slot, dc, blocks, n - 1);
        let b = blocks[n - 1];
        if uses_custom(t, custom, b) && t.slot(b.strategy)->0 == slot {
            head.push(MatrixSite { dc: dc as usize, bx: b.x, by: b.y, strategy: b.strategy })
        } else {
            head
        }
    }
}

/// The first blocks of a map.
pub open spec fn blocks_of(map: AcStrategyImage) -> Seq<Placement> {
    firsts(map@, map.height() as int)
}

/// The tables used in the leading `n` groups.
pub open spec fn used_in(t: SlotTable, custom: u16, maps: Seq<AcStrategyImage>, n: int) -> u16
    decreases n,
{
    if n <= 0 {
        0
    } else {
        used_by(
            t,
            custom,
            blocks_of(maps[n - 1]),
            used_in(t, custom, maps, n - 1),
            blocks_of(maps[n - 1]).len() as int,
        )
    }
}

/// The blocks of the leading `n` groups that use the custom table of a slot.
pub open spec fn users_in(
    t: SlotTable,
    custom: u16,
    slot: int,
    maps: Seq<AcStrategyImage>,
    n: int,
) -> Seq<MatrixSite>
    decreases n,
{
    if n <= 0 {
        Seq::empty()
    } else {
        users_in(t, custom, slot, maps, n - 1) + users_of(
            t,
            custom,
            slot,
            n - 1,
            blocks_of(maps[n - 1]),
            blocks_of(maps[n - 1]).len() as int,
        )
    }
}

/// The custom tables in use.
pub fn used_tables(t: &SlotTable, custom: u16, maps: &Vec<AcStrategyImage>) -> (r: u16)
    requires
        t.wf(),
        forall|i: int| 0 <= i < maps@.len() ==> (#[trigger] maps@[i]).wf(),
    ensures
        r == used_in(*t, custom, maps@, maps@.len() as int),
{
    let mut used: u16 = 0;
    let mut i: usize = 0;
    while i < maps.len()
        invariant
            i <= maps@.len(),
            t.wf(),
            forall|k: int| 0 <= k < maps@.len() ==> (#[trigger] maps@[k]).wf(),
            used == used_in(*t, custom, maps@, i as int),
        decreases maps@.len() - i,
    {
        let blocks: Vec<Placement> = maps[i].first_blocks();
        let ghost before = used;
        let mut k: usize = 0;
        while k < blocks.len()
            invariant
                k <= blocks@.len(),
                t.wf(),
                used == used_by(*t, custom, blocks@, before, k as int),
            decreases blocks@.len() - k,
        {
            let bit: u16 = t.bit_of(blocks[k].strategy);
            if t.slot_of(blocks[k].strategy).is_some() && custom & bit != 0 {
                used = used | bit;
            }
            k += 1;
        }
        i += 1;
    }
    used
}

/// Lists the blocks that use the custom table of a slot, group by group.
pub fn table_users(
    t: &SlotTable,
    custom: u16,
    slot: u8,
    maps: &Vec<AcStrategyImage>,
) -> (r: Vec<MatrixSite>)
    requires
        t.wf(),
        forall|i: int| 0 <= i < maps@.len() ==> (#[trigger] maps@[i]).wf(),
    ensures
        r@ == users_in(*t, custom, slot as int, maps@, maps@.len() as int),
{
    let mut out: Vec<MatrixSite> = Vec::new();
    let mut i: usize = 0;
    while i < maps.len()
        invariant
            i <= maps@.len(),
            t.wf(),
            forall|k: int| 0 <= k < maps@.len() ==> (#[trigger] maps@[k]).wf(),
            out@ == users_in(*t, custom, slot as int, maps@, i as int),
        decreases maps@.len() - i,
    {
        let blocks: Vec<Placement> = maps[i].first_blocks();
        let ghost before = out@;
        let mut k: usize = 0;
        assert(out@ =~= before + users_of(*t, custom, slot as int, i as int, blocks@, 0));
        while k < blocks.len()
            invariant
                k <= blocks@.len(),
                t.wf(),
                out@ == before + users_of(
                    *t,
                    custom,
                    slot as int,
                    i as int,
                    blocks@,
                    k as int,
                ),
            decreases blocks@.len() - k,
        {
            let b: Placement = blocks[k];
            let bit: u16 = t.bit_of(b.strategy);
            if let Some(s) = t.slot_of(b.strategy) {
                if custom & bit != 0 && s == slot {
                    out.push(MatrixSite { dc: i, bx: b.x, by: b.y, strategy: b.strategy });
                }
            }
            k += 1;
            assert(out@ =~= before + users_of(
                *t,
                custom,
                slot as int,
                i as int,
                blocks@,
                k as int,
            ));
        }
        i += 1;
    }
    out
}

/// The strategies that a block may change to, in the order they are tried.
pub const MATRIX_CANDIDATES: [u8; 9] = [
    STRATEGY_DCT,
    STRATEGY_DCT16X8,
    STRATEGY_DCT8X16,
    STRATEGY_DCT16X16,
    STRATEGY_DCT32X16,
    STRATEGY_DCT16X32,
    STRATEGY_DCT32X32,
    STRATEGY_DCT64X32,
    STRATEGY_DCT32X64,
];

/// A strategy may tile the footprint of another: it fits into it, covers fewer
/// blocks unless it is the 8x8 DCT, and is square where rectangles are out of the
/// question.
pub open spec fn tiles_footprint(strategy: u8, candidate: u8, rectangles: bool) -> bool {
    let cx = covered_x(candidate);
    let cy = covered_y(candidate);
    &&& cx <= covered_x(strategy)
    &&& cy <= covered_y(strategy)
    &&& cx * cy < covered_x(strategy) * covered_y(strategy) || candidate == STRATEGY_DCT
    &&& rectangles || cx == cy
}

/// The candidates among the leading `n`.
pub open spec fn candidates_for(strategy: u8, rectangles: bool, n: int) -> Seq<u8>
    decreases n,
{
    if n <= 0 {
        Seq::empty()
    } else if tiles_footprint(strategy, MATRIX_CANDIDATES@[n - 1], rectangles) {
        candidates_for(strategy, rectangles, n - 1).push(MATRIX_CANDIDATES@[n - 1])
    } else {
        candidates_for(strategy, rectangles, n - 1)
    }
}

/// Lists the strategies that a block may change to.
pub fn matrix_candidates(strategy: u8, rectangles: bool) -> (r: Vec<u8>)
    ensures
        r@ == candidates_for(strategy, rectangles, 9),
{
    let width: usize = covered_blocks_x_of(strategy);
    let height: usize = covered_blocks_y_of(strategy);
    let mut out: Vec<u8> = Vec::new();
    let mut i: usize = 0;
    while i < 9
        invariant
            i <= 9,
            width == covered_x(strategy),
            height == covered_y(strategy),
            1 <= width <= 8,
            1 <= height <= 8,
            out@ == candidates_for(strategy, rectangles, i as int),
        decreases 9 - i,
    {
        let c: u8 = MATRIX_CANDIDATES[i];
        let cx: usize = covered_blocks_x_of(c);
        let cy: usize = covered_blocks_y_of(c);
        assert(cx * cy <= 64 && width * height <= 64) by (nonlinear_arith)
            requires
                1 <= cx <= 8,
                1 <= cy <= 8,
                1 <= width <= 8,
                1 <= height <= 8,
        ;
        if cx <= width && cy <= height && (cx * cy < width * height || c == STRATEGY_DCT) && (
        rectangles || cx == cy) {
            out.push(c);
        }
        i += 1;
    }
    out
}

/// What the cost model says of a block and of its candidates, in bits: for every
/// candidate the cost of each transform that it takes to tile the footprint.
pub struct MatrixScores<A> {
    pub incumbent: A,
    pub candidates: Vec<Vec<A>>,
}

/// Sum of the leading `n` costs.
pub open spec fn cost_sum<A: Amount>(costs: Seq<A>, n: int) -> A
    decreases n,
{
    if n <= 0 {
        A::zero_spec()
    } else {
        cost_sum(costs, n - 1).plus_spec(costs[n - 1])
    }
}

/// The alternatives that the leading `n` candidates of a block make. A candidate
/// never counts as a gain.
pub open spec fn alternatives_for<A: Amount>(
    t: SlotTable,
    custom: u16,
    site: MatrixSite,
    cands: Seq<u8>,
    s: MatrixScores<A>,
    n: int,
) -> Seq<Alternative<A>>
    decreases n,
{
    if n <= 0 {
        seq![
            Alternative {
                strategy: site.strategy,
                required: t.bit(site.strategy),
                loss_bits: A::zero_spec(),
            },
        ]
    } else {
        let head = alternatives_for(t, custom, site, cands, s, n - 1);
        let costs = s.candidates@[n - 1]@;
        let cost = cost_sum(costs, costs.len() as int);
        if cost.finite_spec() && s.incumbent.finite_spec() {
            head.push(
                Alternative {
                    strategy: cands[n - 1],
                    required: t.bit(cands[n - 1]) & custom,
                    loss_bits: cost.minus_spec(s.incumbent).greater_spec(A::zero_spec()),
                },
            )
        } else {
            head
        }
    }
}

/// The smallest loss among the leading `n` alternatives to the strategy in place.
pub open spec fn least_loss<A: Amount>(alternatives: Seq<Alternative<A>>, n: int) -> A
    decreases n,
{
    if n <= 1 {
        A::infinite_spec()
    } else {
        least_loss(alternatives, n - 1).lesser_spec(alternatives[n - 1].loss_bits)
    }
}

fn list_alternatives<A: Amount>(
    t: &SlotTable,
    custom: u16,
    site: MatrixSite,
    cands: &Vec<u8>,
    s: &MatrixScores<A>,
) -> (r: Vec<Alternative<A>>)
    requires
        t.wf(),
        s.candidates@.len() == cands@.len(),
    ensures
        r@ == alternatives_for(*t, custom, site, cands@, *s, cands@.len() as int),
{
    let mut out: Vec<Alternative<A>> = Vec::new();
    out.push(
        Alternative {
            strategy: site.strategy,
            required: t.bit_of(site.strategy),
            loss_bits: A::zero(),
        },
    );
    assert(out@ =~= alternatives_for(*t, custom, site, cands@, *s, 0));
    let mut i: usize = 0;
    while i < cands.len()
        invariant
            i <= cands@.len(),
            t.wf(),
            s.candidates@.len() == cands@.len(),
            out@ == alternatives_for(*t, custom, site, cands@, *s, i as int),
        decreases cands@.len() - i,
    {
        let costs: &Vec<A> = &s.candidates[i];
        let mut cost: A = A::zero();
        let mut k: usize = 0;
        while k < costs.len()
            invariant
                k <= costs@.len(),
                cost == cost_sum(costs@, k as int),
            decreases costs@.len() - k,
        {
            cost = cost.plus(costs[k]);
            k += 1;
        }
        if cost.finite() && s.incumbent.finite() {
            out.push(
                Alternative {
                    strategy: cands[i],
                    required: t.bit_of(cands[i]) & custom,
                    loss_bits: cost.minus(s.incumbent).greater(A::zero()),
                },
            );
        }
        i += 1;
    }
    out
}

fn smallest_loss<A: Amount>(alternatives: &Vec<Alternative<A>>) -> (r: A)
    ensures
        r == least_loss(alternatives@, alternatives@.len() as int),
{
    let mut least: A = A::infinite();
    let mut i: usize = 1;
    while i < alternatives.len()
        invariant
            1 <= i,
            i <= alternatives@.len() || alternatives@.len() == 0 && i == 1,
            least == least_loss(alternatives@, i as int),
        decreases alternatives@.len() - i,
    {
        least = least.lesser(alternatives[i].loss_bits);
        i += 1;
    }
    least
}

/// What scoring the blocks of one slot leads to.
pub struct FamilyState<A> {
    /// Lower bound on what removing the table would lose.
    pub loss: A,
    /// The table stays: the bound exceeds all that removing it could save.
    pub pinned: bool,
    pub regions: Seq<RegionView<A>>,
}

/// The region of a block.
pub open spec fn site_view<A: Amount>(
    t: SlotTable,
    custom: u16,
    rectangles: bool,
    site: MatrixSite,
    s: MatrixScores<A>,
) -> RegionView<A> {
    let cands = candidates_for(site.strategy, rectangles, 9);
    RegionView {
        dc: site.dc as int,
        bx: site.bx as int,
        by: site.by as int,
        width: covered_x(site.strategy),
        height: covered_y(site.strategy),
        alternatives: alternatives_for(t, custom, site, cands, s, cands.len() as int),
    }
}

/// What the leading `n` blocks of a slot lead to.
pub open spec fn family_after<A: Amount>(
    t: SlotTable,
    custom: u16,
    rectangles: bool,
    payload: u32,
    sites: Seq<MatrixSite>,
    scores: Seq<MatrixScores<A>>,
    n: int,
) -> FamilyState<A>
    decreases n,
{
    if n <= 0 {
        FamilyState { loss: A::zero_spec(), pinned: false, regions: Seq::empty() }
    } else {
        let head = family_after(t, custom, rectangles, payload, sites, scores, n - 1);
        if head.pinned {
            head
        } else {
            let region = site_view(t, custom, rectangles, sites[n - 1], scores[n - 1]);
            let loss = head.loss.plus_spec(
                least_loss(region.alternatives, region.alternatives.len() as int),
            );
            if A::ratio_spec((payload + MODE_BITS) as i64, 1).less_spec(loss) {
                FamilyState { loss, pinned: true, regions: Seq::empty() }
            } else {
                FamilyState { loss, pinned: false, regions: head.regions.push(region) }
            }
        }
    }
}

/// One entry of scores per block, one list of costs per candidate.
pub open spec fn family_scored<A>(
    sites: Seq<MatrixSite>,
    scores: Seq<MatrixScores<A>>,
    rectangles: bool,
) -> bool {
    scores.len() == sites.len() && forall|i: int|
        0 <= i < sites.len() ==> (#[trigger] scores[i]).candidates@.len() == candidates_for(
            sites[i].strategy,
            rectangles,
            9,
        ).len()
}

fn score_family<A: Amount>(
    t: &SlotTable,
    custom: u16,
    rectangles: bool,
    payload: u32,
    sites: &Vec<MatrixSite>,
    scores: &Vec<MatrixScores<A>>,
    regions: &mut Vec<MatrixRegion<A>>,
) -> (pinned: bool)
    requires
        t.wf(),
        family_scored(sites@, scores@, rectangles),
    ensures
        ({
            let after = family_after(
                *t,
                custom,
                rectangles,
                payload,
                sites@,
                scores@,
                sites@.len() as int,
            );
            &&& pinned == after.pinned
            &&& region_views(final(regions)@) == region_views(old(regions)@) + after.regions
        }),
{
    let mark: usize = regions.len();
    let ghost start = region_views(regions@);
    let limit: A = A::ratio((payload as u64 + MODE_BITS) as i64, 1);
    let mut pinned: bool = false;
    let mut loss: A = A::zero();
    let mut i: usize = 0;
    assert(region_views(regions@) =~= start + Seq::<RegionView<A>>::empty());
    while i < sites.len()
        invariant
            i <= sites@.len(),
            t.wf(),
            family_scored(sites@, scores@, rectangles),
            mark == start.len(),
            limit == A::ratio_spec((payload + MODE_BITS) as i64, 1),
            ({
                let after = family_after(
                    *t,
                    custom,
                    rectangles,
                    payload,
                    sites@,
                    scores@,
                    i as int,
                );
                &&& pinned == after.pinned
                &&& loss == after.loss
                &&& region_views(regions@) == start + after.regions
            }),
        decreases sites@.len() - i,
    {
        if !pinned {
            let site: MatrixSite = sites[i];
            let cands: Vec<u8> = matrix_candidates(site.strategy, rectangles);
            assert(scores@[i as int].candidates@.len() == cands@.len());
            let alternatives: Vec<Alternative<A>> = list_alternatives(
                t,
                custom,
                site,
                &cands,
                &scores[i],
            );
            loss = loss.plus(smallest_loss(&alternatives));
            let ghost before = regions@;
            if limit.less(loss) {
                pinned = true;
                regions.truncate(mark);
                assert(region_views(regions@) =~= start + Seq::<RegionView<A>>::empty()) by {
                    assert forall|k: int| 0 <= k < mark implies region_views(regions@)[k]
                        == start[k] by {
                        assert(region_views(before)[k] == start[k]);
                    }
                }
            } else {
                regions.push(
                    MatrixRegion {
                        dc: site.dc,
                        bx: site.bx,
                        by: site.by,
                        width: covered_blocks_x_of(site.strategy),
                        height: covered_blocks_y_of(site.strategy),
                        alternatives,
                    },
                );
                assert(region_views(regions@) =~= region_views(before).push(regions@.last()@));
            }
        }
        i += 1;
        proof {
            let after = family_after(*t, custom, rectangles, payload, sites@, scores@, i as int);
            assert(region_views(regions@) =~= start + after.regions);
        }
    }
    pinned
}

/// What the slots from 1 up to `n` lead to: the tables that stay, and the regions
/// that may change.
pub open spec fn families_after<A: Amount>(
    t: SlotTable,
    rectangles: bool,
    payload: Seq<u32>,
    maps: Seq<AcStrategyImage>,
    scores: Seq<Vec<MatrixScores<A>>>,
    n: int,
) -> (u16, Seq<RegionView<A>>)
    decreases n,
{
    let custom = custom_among(payload, 9);
    if n <= 0 {
        (used_in(t, custom, maps, maps.len() as int) & 1, Seq::empty())
    } else {
        let head = families_after(t, rectangles, payload, maps, scores, n - 1);
        let sites = users_in(t, custom, n, maps, maps.len() as int);
        let family = family_after(
            t,
            custom,
            rectangles,
            payload[n],
            sites,
            scores[n - 1]@,
            sites.len() as int,
        );
        (
            if family.pinned {
                head.0 | SLOT_BITS@[n]
            } else {
                head.0
            },
            head.1 + family.regions,
        )
    }
}

/// Tables are worth a second look: one besides the 8x8 DCT's is custom and in
/// use.
pub open spec fn tables_matter(
    t: SlotTable,
    payload: Seq<u32>,
    maps: Seq<AcStrategyImage>,
) -> bool {
    let custom = custom_among(payload, 9);
    custom & !1 != 0 && used_in(t, custom, maps, maps.len() as int) & !1 != 0
}

/// The set of tables that is kept.
pub open spec fn kept_tables<A: Amount>(
    t: SlotTable,
    rectangles: bool,
    payload: Seq<u32>,
    maps: Seq<AcStrategyImage>,
    scores: Seq<Vec<MatrixScores<A>>>,
) -> u16 {
    let used = used_in(t, custom_among(payload, 9), maps, maps.len() as int);
    let families = families_after(t, rectangles, payload, maps, scores, 8);
    best_tables(payload, used, families.0, families.1, 512).mask
}

/// A row of blocks covered by one strategy from column `x` on.
pub open spec fn fill_row(v: Layout, x: int, end: int, y: int, s: u8) -> Layout
    decreases
            (if x < end {
                end - x
            } else {
                0
            }),
{
    if x < end {
        fill_row(with_first(v, x, y, s), x + covered_x(s), end, y, s)
    } else {
        v
    }
}

/// A window covered by one strategy from row `y` on.
pub open spec fn fill_rows(v: Layout, x: int, x_end: int, y: int, y_end: int, s: u8) -> Layout
    decreases
            (if y < y_end {
                y_end - y
            } else {
                0
            }),
{
    if y < y_end {
        fill_rows(fill_row(v, x, x_end, y, s), x, x_end, y + covered_y(s), y_end, s)
    } else {
        v
    }
}

/// The layouts of all groups after the leading `n` regions took the cheapest
/// alternative that the tables permit.
pub open spec fn after_regions<A: Amount>(
    layouts: Seq<Layout>,
    regions: Seq<RegionView<A>>,
    allowed: u16,
    n: int,
) -> Seq<Layout>
    decreases n,
{
    if n <= 0 {
        layouts
    } else {
        let head = after_regions(layouts, regions, allowed, n - 1);
        let r = regions[n - 1];
        match best_of(r.alternatives, allowed, r.alternatives.len() as int) {
            Some(a) => head.update(
                r.dc,
                fill_rows(
                    head[r.dc],
                    r.bx,
                    r.bx + r.width,
                    r.by,
                    r.by + r.height,
                    a.strategy,
                ),
            ),
            None => head,
        }
    }
}

/// The layouts of a list of maps.
pub open spec fn layouts_of(maps: Seq<AcStrategyImage>) -> Seq<Layout> {
    maps.map_values(|m: AcStrategyImage| m@)
}

/// A map is well-formed and as large as another.
pub open spec fn same_size(m: AcStrategyImage, other: AcStrategyImage) -> bool {
    m.wf() && m.width() == other.width() && m.height() == other.height()
}

/// A strategy tiles a window of `w x h` blocks.
pub open spec fn divides(s: u8, w: int, h: int) -> bool {
    w % covered_x(s) == 0 && h % covered_y(s) == 0
}

fn fill_window(
    map: &mut AcStrategyImage,
    bx: usize,
    by: usize,
    width: usize,
    height: usize,
    s: u8,
)
    requires
        old(map).wf(),
        bx + width <= old(map).width(),
        by + height <= old(map).height(),
        divides(s, width as int, height as int),
    ensures
        final(map).wf(),
        final(map).width() == old(map).width(),
        final(map).height() == old(map).height(),
        final(map)@ == fill_rows(
            old(map)@,
            bx as int,
            bx + width,
            by as int,
            by + height,
            s,
        ),
{
    let cx: usize = covered_blocks_x_of(s);
    let cy: usize = covered_blocks_y_of(s);
    let ghost v = map@;
    let x_end: usize = bx + width;
    let y_end: usize = by + height;
    let mut y: usize = by;
    while y < y_end
        invariant
            by <= y <= y_end,
            cx == covered_x(s),
            cy == covered_y(s),
            1 <= cx <= 8,
            1 <= cy <= 8,
            x_end == bx + width,
            width as int % (cx as int) == 0,
            (y_end - y) % (cy as int) == 0,
            map.wf(),
            map.width() == old(map).width(),
            map.height() == old(map).height(),
            x_end <= map.width(),
            y_end <= map.height(),
            fill_rows(v, bx as int, x_end as int, by as int, y_end as int, s) == fill_rows(
                map@,
                bx as int,
                x_end as int,
                y as int,
                y_end as int,
                s,
            ),
        decreases y_end - y,
    {
        let ghost row = map@;
        proof {
            lemma_step(y_end - y, cy as int);
        }
        let mut x: usize = bx;
        while x < x_end
            invariant
                bx <= x <= x_end,
                cx == covered_x(s),
                cy == covered_y(s),
                1 <= cx <= 8,
                1 <= cy <= 8,
                (x_end - x) % (cx as int) == 0,
                y + cy <= y_end,
                map.wf(),
                map.width() == old(map).width(),
                map.height() == old(map).height(),
                x_end <= map.width(),
                y_end <= map.height(),
                fill_row(row, bx as int, x_end as int, y as int, s) == fill_row(
                    map@,
                    x as int,
                    x_end as int,
                    y as int,
                    s,
                ),
            decreases x_end - x,
        {
            proof {
                lemma_step(x_end - x, cx as int);
            }
            map.set_first(x, y, s);
            x += cx;
        }
        y += cy;
    }
}

pub(crate) proof fn lemma_step(n: int, d: int)
    requires
        n > 0,
        d > 0,
        n % d == 0,
    ensures
        n >= d,
        (n - d) % d == 0,
{
    if n < d {
        vstd::arithmetic::div_mod::lemma_small_mod(n as nat, d as nat);
    }
    vstd::arithmetic::div_mod::lemma_mod_sub_multiples_vanish(n, d);
}

/// Every map is a tiling.
pub open spec fn all_tiled(maps: Seq<AcStrategyImage>) -> bool {
    forall|i: int|
        0 <= i < maps.len() ==> (#[trigger] maps[i]).wf() && tiled(
            maps[i]@,
            maps[i].width() as int,
            maps[i].height() as int,
        )
}

/// A block lies in its map as a first block.
pub open spec fn site_in(maps: Seq<AcStrategyImage>, site: MatrixSite) -> bool {
    let m = maps[site.dc as int];
    &&& site.dc < maps.len()
    &&& fits_in(
        m.width() as int,
        m.height() as int,
        site.bx as int,
        site.by as int,
        site.strategy,
    )
    &&& m@[site.by as int][site.bx as int].first
    &&& m@[site.by as int][site.bx as int].strategy == site.strategy
}

proof fn lemma_users_of(
    t: SlotTable,
    custom: u16,
    slot: int,
    dc: int,
    maps: Seq<AcStrategyImage>,
    n: int,
)
    requires
        all_tiled(maps),
        0 <= dc < maps.len() <= usize::MAX,
        0 <= n <= blocks_of(maps[dc]).len(),
    ensures
        forall|i: int|
            0 <= i < users_of(t, custom, slot, dc, blocks_of(maps[dc]), n).len() ==> site_in(
                maps,
                #[trigger] users_of(t, custom, slot, dc, blocks_of(maps[dc]), n)[i],
            ),
    decreases n,
{
    if n > 0 {
        lemma_users_of(t, custom, slot, dc, maps, n - 1);
        let m = maps[dc];
        let blocks = blocks_of(m);
        let head = users_of(t, custom, slot, dc, blocks, n - 1);
        let now = users_of(t, custom, slot, dc, blocks, n);
        m.lemma_shape();
        lemma_firsts(m@, m.width() as int, m.height() as int);
        assert forall|i: int| 0 <= i < now.len() implies site_in(maps, #[trigger] now[i]) by {
            if i < head.len() {
                assert(now[i] == head[i]);
            } else {
                let b = blocks[n - 1];
                assert(b.x < m.width());
                assert(m@[b.y as int][b.x as int].first);
            }
        }
    }
}

proof fn lemma_users_in(
    t: SlotTable,
    custom: u16,
    slot: int,
    maps: Seq<AcStrategyImage>,
    n: int,
)
    requires
        all_tiled(maps),
        maps.len() <= usize::MAX,
        0 <= n <= maps.len(),
    ensures
        forall|i: int|
            0 <= i < users_in(t, custom, slot, maps, n).len() ==> site_in(
                maps,
                #[trigger] users_in(t, custom, slot, maps, n)[i],
            ),
    decreases n,
{
    if n > 0 {
        lemma_users_in(t, custom, slot, maps, n - 1);
        let blocks = blocks_of(maps[n - 1]);
        lemma_users_of(t, custom, slot, n - 1, maps, blocks.len() as int);
        let head = users_in(t, custom, slot, maps, n - 1);
        let last = users_of(t, custom, slot, n - 1, blocks, blocks.len() as int);
        let now = users_in(t, custom, slot, maps, n);
        assert forall|i: int| 0 <= i < now.len() implies site_in(maps, #[trigger] now[i]) by {
            if i < head.len() {
                assert(now[i] == head[i]);
            } else {
                assert(now[i] == last[i - head.len()]);
            }
        }
    }
}

/// A strategy that tiles a footprint divides it.
proof fn lemma_tiles_divides(strategy: u8, candidate: u8, rectangles: bool)
    requires
        tiles_footprint(strategy, candidate, rectangles),
    ensures
        divides(candidate, covered_x(strategy), covered_y(strategy)),
{
    let w = covered_x(strategy);
    let h = covered_y(strategy);
    let cx = covered_x(candidate);
    let cy = covered_y(candidate);
    assert(w == 1 || w == 2 || w == 4 || w == 8);
    assert(h == 1 || h == 2 || h == 4 || h == 8);
    assert(w % cx == 0) by {
        if cx == 1 {
        } else if cx == 2 {
        } else if cx == 4 {
        } else {
            assert(cx == 8);
        }
    }
    assert(h % cy == 0) by {
        if cy == 1 {
        } else if cy == 2 {
        } else if cy == 4 {
        } else {
            assert(cy == 8);
        }
    }
}

proof fn lemma_candidates_divide(strategy: u8, rectangles: bool, n: int)
    requires
        0 <= n <= 9,
    ensures
        forall|i: int|
            0 <= i < candidates_for(strategy, rectangles, n).len() ==> divides(
                #[trigger] candidates_for(strategy, rectangles, n)[i],
                covered_x(strategy),
                covered_y(strategy),
            ),
    decreases n,
{
    if n > 0 {
        lemma_candidates_divide(strategy, rectangles, n - 1);
        let head = candidates_for(strategy, rectangles, n - 1);
        let now = candidates_for(strategy, rectangles, n);
        assert forall|i: int| 0 <= i < now.len() implies divides(
            #[trigger] now[i],
            covered_x(strategy),
            covered_y(strategy),
        ) by {
            if i < head.len() {
                assert(now[i] == head[i]);
            } else {
                lemma_tiles_divides(strategy, MATRIX_CANDIDATES@[n - 1], rectangles);
            }
        }
    }
}

proof fn lemma_alternatives_divide<A: Amount>(
    t: SlotTable,
    custom: u16,
    site: MatrixSite,
    cands: Seq<u8>,
    s: MatrixScores<A>,
    n: int,
)
    requires
        0 <= n <= cands.len(),
        forall|i: int|
            0 <= i < cands.len() ==> divides(
                #[trigger] cands[i],
                covered_x(site.strategy),
                covered_y(site.strategy),
            ),
    ensures
        forall|i: int|
            0 <= i < alternatives_for(t, custom, site, cands, s, n).len() ==> divides(
                (#[trigger] alternatives_for(t, custom, site, cands, s, n)[i]).strategy,
                covered_x(site.strategy),
                covered_y(site.strategy),
            ),
    decreases n,
{
    let now = alternatives_for(t, custom, site, cands, s, n);
    if n > 0 {
        lemma_alternatives_divide(t, custom, site, cands, s, n - 1);
        let head = alternatives_for(t, custom, site, cands, s, n - 1);
        assert forall|i: int| 0 <= i < now.len() implies divides(
            (#[trigger] now[i]).strategy,
            covered_x(site.strategy),
            covered_y(site.strategy),
        ) by {
            if i < head.len() {
                assert(now[i] == head[i]);
            } else {
                assert(now[i].strategy == cands[n - 1]);
            }
        }
    }
}

/// A region is the footprint of a first block, and all its alternatives tile it.
pub open spec fn region_in<A>(maps: Seq<AcStrategyImage>, r: RegionView<A>) -> bool {
    let m = maps[r.dc];
    &&& 0 <= r.dc < maps.len()
    &&& 0 <= r.bx
    &&& 0 <= r.by
    &&& r.bx + r.width <= m.width()
    &&& r.by + r.height <= m.height()
    &&& m@[r.by][r.bx].first
    &&& covered_x(m@[r.by][r.bx].strategy) == r.width
    &&& covered_y(m@[r.by][r.bx].strategy) == r.height
    &&& forall|i: int|
        0 <= i < r.alternatives.len() ==> divides(
            (#[trigger] r.alternatives[i]).strategy,
            r.width,
            r.height,
        )
}

/// All regions lie in the maps.
pub open spec fn regions_in<A>(maps: Seq<AcStrategyImage>, regions: Seq<RegionView<A>>) -> bool {
    forall|i: int| 0 <= i < regions.len() ==> region_in(maps, #[trigger] regions[i])
}

proof fn lemma_family_regions<A: Amount>(
    t: SlotTable,
    custom: u16,
    rectangles: bool,
    payload: u32,
    maps: Seq<AcStrategyImage>,
    sites: Seq<MatrixSite>,
    scores: Seq<MatrixScores<A>>,
    n: int,
)
    requires
        0 <= n <= sites.len(),
        forall|i: int| 0 <= i < sites.len() ==> site_in(maps, #[trigger] sites[i]),
    ensures
        regions_in(
            maps,
            family_after(t, custom, rectangles, payload, sites, scores, n).regions,
        ),
    decreases n,
{
    if n > 0 {
        lemma_family_regions(t, custom, rectangles, payload, maps, sites, scores, n - 1);
        let head = family_after(t, custom, rectangles, payload, sites, scores, n - 1).regions;
        let now = family_after(t, custom, rectangles, payload, sites, scores, n).regions;
        let site = sites[n - 1];
        assert(site_in(maps, site));
        let cands = candidates_for(site.strategy, rectangles, 9);
        lemma_candidates_divide(site.strategy, rectangles, 9);
        lemma_alternatives_divide(t, custom, site, cands, scores[n - 1], cands.len() as int);
        assert forall|i: int| 0 <= i < now.len() implies region_in(maps, #[trigger] now[i]) by {
            if i < head.len() {
                assert(now[i] == head[i]);
            }
        }
    }
}

/// The regions that may change are footprints of first blocks of the maps, and
/// all their alternatives tile them.
pub proof fn law_regions_are_footprints<A: Amount>(
    t: SlotTable,
    rectangles: bool,
    payload: Seq<u32>,
    maps: Seq<AcStrategyImage>,
    scores: Seq<Vec<MatrixScores<A>>>,
    n: int,
)
    requires
        all_tiled(maps),
        maps.len() <= usize::MAX,
        0 <= n <= 8,
    ensures
        regions_in(maps, families_after(t, rectangles, payload, maps, scores, n).1),
    decreases n,
{
    if n > 0 {
        law_regions_are_footprints(t, rectangles, payload, maps, scores, n - 1);
        let custom = custom_among(payload, 9);
        let sites = users_in(t, custom, n, maps, maps.len() as int);
        lemma_users_in(t, custom, n, maps, maps.len() as int);
        lemma_family_regions(
            t,
            custom,
            rectangles,
            payload[n],
            maps,
            sites,
            scores[n - 1]@,
            sites.len() as int,
        );
        let head = families_after(t, rectangles, payload, maps, scores, n - 1).1;
        let last = family_after(
            t,
            custom,
            rectangles,
            payload[n],
            sites,
            scores[n - 1]@,
            sites.len() as int,
        ).regions;
        let now = families_after(t, rectangles, payload, maps, scores, n).1;
        assert forall|i: int| 0 <= i < now.len() implies region_in(maps, #[trigger] now[i]) by {
            if i < head.len() {
                assert(now[i] == head[i]);
            } else {
                assert(now[i] == last[i - head.len()]);
            }
        }
    }
}

pub(crate) proof fn lemma_best_of_listed<A: Amount>(alternatives: Seq<Alternative<A>>, allowed: u16, n: int)
    requires
        0 <= n <= alternatives.len(),
    ensures
        best_of(alternatives, allowed, n) is Some ==> alternatives.contains(
            best_of(alternatives, allowed, n)->0,
        ),
    decreases n,
{
    if n > 0 {
        lemma_best_of_listed(alternatives, allowed, n - 1);
    }
}

/// The scores of all slots are complete.
pub open spec fn families_scored<A>(
    t: SlotTable,
    rectangles: bool,
    payload: Seq<u32>,
    maps: Seq<AcStrategyImage>,
    scores: Seq<Vec<MatrixScores<A>>>,
) -> bool {
    scores.len() == 8 && forall|k: int|
        0 <= k < 8 ==> family_scored(
            users_in(t, custom_among(payload, 9), k + 1, maps, maps.len() as int),
            (#[trigger] scores[k])@,
            rectangles,
        )
}

fn apply_region<A: Amount>(
    maps: &mut Vec<AcStrategyImage>,
    r: &MatrixRegion<A>,
    allowed: u16,
    Ghost(before): Ghost<Seq<AcStrategyImage>>,
)
    requires
        old(maps)@.len() == before.len(),
        forall|i: int|
            0 <= i < before.len() ==> (#[trigger] old(maps)@[i]).wf() && old(maps)@[i].width()
                == before[i].width() && old(maps)@[i].height() == before[i].height(),
        region_in(before, r@),
    ensures
        final(maps)@.len() == before.len(),
        forall|i: int|
            0 <= i < before.len() ==> (#[trigger] final(maps)@[i]).wf() && final(maps)@[i].width()
                == before[i].width() && final(maps)@[i].height() == before[i].height(),
        layouts_of(final(maps)@) == after_regions(
            layouts_of(old(maps)@),
            seq![r@],
            allowed,
            1,
        ),
{
    let ghost start = maps@;
    reveal_with_fuel(after_regions, 2);
    match best_alternative(&r.alternatives, allowed) {
        Some(a) => {
            proof {
                lemma_best_of_listed(r.alternatives@, allowed, r.alternatives@.len() as int);
                let k = choose|k: int|
                    0 <= k < r.alternatives@.len() && r.alternatives@[k] == a;
                assert(divides(r@.alternatives[k].strategy, r@.width, r@.height));
                assert(start[r.dc as int].wf());
            }
            fill_window(&mut maps[r.dc], r.bx, r.by, r.width, r.height, a.strategy);
            proof {
                assert forall|i: int| 0 <= i < before.len() implies (#[trigger] maps@[i]).wf()
                    && maps@[i].width() == before[i].width() && maps@[i].height()
                    == before[i].height() by {
                    if i != r.dc {
                        assert(maps@[i] == start[i]);
                    }
                }
                assert(layouts_of(maps@) =~= after_regions(
                    layouts_of(start),
                    seq![r@],
                    allowed,
                    1,
                ));
            }
        },
        None => {},
    }
}

/// Drops custom tables that are not worth their header bits, and changes the
/// blocks that used them to the cheapest strategies that do without.
///
/// `scores[k]` holds what the cost model says of the blocks of slot `k + 1`, in
/// the order of `table_users`.
pub fn account_matrix_headers<A: Amount>(
    maps: &mut Vec<AcStrategyImage>,
    header: &MatrixHeaderCost,
    t: &SlotTable,
    fastest: bool,
    rectangles: bool,
    scores: &Vec<Vec<MatrixScores<A>>>,
)
    requires
        t.wf(),
        all_tiled(old(maps)@),
        !fastest && tables_matter(*t, header.payload@, old(maps)@) ==> families_scored(
            *t,
            rectangles,
            header.payload@,
            old(maps)@,
            scores@,
        ),
    ensures
        final(maps)@.len() == old(maps)@.len(),
        forall|i: int|
            0 <= i < final(maps)@.len() ==> same_size(#[trigger] final(maps)@[i], old(maps)@[i]),
        ({
            let payload = header.payload@;
            let used = used_in(
                *t,
                custom_among(payload, 9),
                old(maps)@,
                old(maps)@.len() as int,
            );
            let kept = kept_tables(*t, rectangles, payload, old(maps)@, scores@);
            let regions = families_after(*t, rectangles, payload, old(maps)@, scores@, 8).1;
            layouts_of(final(maps)@) == (if fastest || !tables_matter(*t, payload, old(maps)@)
                || kept == used {
                layouts_of(old(maps)@)
            } else {
                after_regions(layouts_of(old(maps)@), regions, kept, regions.len() as int)
            })
        }),
{
    let ghost before = maps@;
    let ghost payload = header.payload@;
    let custom: u16 = header.custom_mask();
    if fastest || custom & !1 == 0 {
        return;
    }
    let used: u16 = used_tables(t, custom, maps);
    if used & !1 == 0 {
        return;
    }
    let mut pinned: u16 = used & 1;
    let mut regions: Vec<MatrixRegion<A>> = Vec::new();
    let mut slot: usize = 1;
    assert(region_views(regions@) =~= families_after(
        *t,
        rectangles,
        payload,
        before,
        scores@,
        0,
    ).1);
    while slot < 9
        invariant
            1 <= slot <= 9,
            t.wf(),
            maps@ == before,
            payload == header.payload@,
            custom == custom_among(payload, 9),
            all_tiled(before),
            families_scored(*t, rectangles, payload, before, scores@),
            pinned == families_after(*t, rectangles, payload, before, scores@, slot - 1).0,
            region_views(regions@) == families_after(
                *t,
                rectangles,
                payload,
                before,
                scores@,
                slot - 1,
            ).1,
        decreases 9 - slot,
    {
        let sites: Vec<MatrixSite> = table_users(t, custom, slot as u8, maps);
        assert(family_scored(sites@, scores@[slot - 1]@, rectangles));
        if score_family(
            t,
            custom,
            rectangles,
            header.payload[slot],
            &sites,
            &scores[slot - 1],
            &mut regions,
        ) {
            pinned = pinned | SLOT_BITS[slot];
        }
        slot += 1;
    }
    let allowed: u16 = choose_tables(header, used, pinned, &regions);
    let groups: usize = maps.len();
    if allowed == used {
        return;
    }
    assert(before.len() == groups);
    proof {
        law_regions_are_footprints(*t, rectangles, payload, before, scores@, 8);
    }
    let ghost all = region_views(regions@);
    let mut i: usize = 0;
    while i < regions.len()
        invariant
            i <= regions@.len(),
            all == region_views(regions@),
            regions_in(before, all),
            maps@.len() == before.len(),
            forall|k: int|
                0 <= k < before.len() ==> (#[trigger] maps@[k]).wf() && maps@[k].width()
                    == before[k].width() && maps@[k].height() == before[k].height(),
            layouts_of(maps@) == after_regions(layouts_of(before), all, allowed, i as int),
        decreases regions@.len() - i,
    {
        assert(all[i as int] == regions@[i as int]@);
        assert(region_in(before, all[i as int]));
        let ghost now = layouts_of(maps@);
        apply_region(maps, &regions[i], allowed, Ghost(before));
        proof {
            reveal_with_fuel(after_regions, 2);
        }
        i += 1;
    }
}

} // verus!
