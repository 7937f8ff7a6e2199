//! Refinement of quantizers by reconstruction cost.

use crate::amount::{Amount, OrderedAmount};
use crate::cost_map::{grid_shape, CostMap, Costs};
use crate::quant_field::{field_shape, with_window, Field, QuantField};
use crate::rerank_band::lemma_firsts;
use crate::strategy::{
    covered_blocks_x_of, covered_blocks_y_of, covered_x, covered_y, in_dct64_family,
    is_dct64_family,
};
use crate::strategy_map::{firsts, AcStrategyImage, Layout, Placement};
use crate::tiling::{in_bounds, tiled};
use vstd::prelude::*;

verus! {

/// How far below its quantizer a block may go at a distance.
pub open spec fn refinement_steps<A: Amount>(distance: A) -> usize {
    if distance.less_spec(A::ratio_spec(3, 2)) {
        0
    } else if A::ratio_spec(2, 1).at_most_spec(distance) {
        2
    } else {
        1
    }
}

/// How far below its quantizer a block may go at a distance.
pub fn quant_refinement_steps<A: Amount>(distance: A) -> (r: usize)
    ensures
        r == refinement_steps(distance),
{
    if distance.less(A::ratio(3, 2)) {
        0
    } else if A::ratio(2, 1).at_most(distance) {
        2
    } else {
        1
    }
}

/// `q` less `n`, but no less than 0.
pub open spec fn lowered(q: u8, n: int) -> u8 {
    if q < n {
        0
    } else {
        (q - n) as u8
    }
}

/// `q` and 1 more, but no more than a byte holds.
pub open spec fn raised(q: u8) -> u8 {
    if q == 255 {
        255
    } else {
        (q + 1) as u8
    }
}

/// The quantizers tried in place of `q`. Going up stays at one step.
pub open spec fn quant_trials(q: u8, steps: usize) -> Seq<u8> {
    if steps == 2 {
        seq![lowered(q, 1), lowered(q, 2), raised(q), q]
    } else {
        seq![lowered(q, 1), raised(q), q, q]
    }
}

/// Lists the quantizers tried in place of `q`.
pub fn list_quant_trials(q: u8, steps: usize) -> (r: [u8; 4])
    ensures
        r@ == quant_trials(q, steps),
{
    let down: u8 = if q < 1 {
        0
    } else {
        q - 1
    };
    let down2: u8 = if q < 2 {
        0
    } else {
        q - 2
    };
    let up: u8 = if q == 255 {
        255
    } else {
        q + 1
    };
    let r: [u8; 4] = if steps == 2 {
        [down, down2, up, q]
    } else {
        [down, up, q, q]
    };
    assert(r@ =~= quant_trials(q, steps));
    r
}

/// What reconstruction says of a block with its quantizer and with each one
/// tried.
#[derive(Clone, Copy)]
pub struct RefineScores<A> {
    pub current: A,
    pub trials: [A; 4],
}

/// The best quantizer so far and its cost.
pub struct QuantBest<A> {
    pub q: u8,
    pub cost: A,
}

/// The cost that trials start from: the one kept, where it is finite.
pub open spec fn start_cost<A: Amount>(cached: Option<A>, current: A) -> A {
    if cached is Some && (cached->0).finite_spec() {
        cached->0
    } else {
        current
    }
}

/// The best of `q` and of the leading `n` quantizers tried; a later one must cost
/// less.
pub open spec fn best_quant<A: Amount>(
    q: u8,
    steps: usize,
    cached: Option<A>,
    s: RefineScores<A>,
    n: int,
) -> QuantBest<A>
    decreases n,
{
    if n <= 0 {
        QuantBest { q, cost: start_cost(cached, s.current) }
    } else {
        let head = best_quant(q, steps, cached, s, n - 1);
        let trial = quant_trials(q, steps)[n - 1];
        if trial != 0 && trial != head.q && trial != q && s.trials@[n - 1].less_spec(head.cost) {
            QuantBest { q: trial, cost: s.trials@[n - 1] }
        } else {
            head
        }
    }
}

fn choose_quant<A: Amount>(q: u8, steps: usize, cached: Option<A>, s: &RefineScores<A>) -> (r: u8)
    ensures
        r == best_quant(q, steps, cached, *s, 4).q,
{
    let trials: [u8; 4] = list_quant_trials(q, steps);
    let mut best: u8 = q;
    let mut cost: A = match cached {
        Some(c) => if c.finite() {
            c
        } else {
            s.current
        },
        None => s.current,
    };
    let mut k: usize = 0;
    while k < 4
        invariant
            k <= 4,
            trials@ == quant_trials(q, steps),
            best == best_quant(q, steps, cached, *s, k as int).q,
            cost == best_quant(q, steps, cached, *s, k as int).cost,
        decreases 4 - k,
    {
        let trial: u8 = trials[k];
        if trial != 0 && trial != best && trial != q && s.trials[k].less(cost) {
            best = trial;
            cost = s.trials[k];
        }
        k += 1;
    }
    best
}

/// A block is refined with the band `[y0, y1)`: none of the 64-pixel transforms,
/// and its quantizer can go down.
pub open spec fn refined_site(f: Field, y0: int, y1: int, s: Placement) -> bool {
    &&& y0 <= s.y < y1
    &&& !is_dct64_family(s.strategy)
    &&& f[s.y as int][s.x as int] > 1
}

/// The blocks among the leading `n` that are refined.
pub open spec fn refined_among(
    f: Field,
    y0: int,
    y1: int,
    all: Seq<Placement>,
    n: int,
) -> Seq<Placement>
    decreases n,
{
    if n <= 0 {
        Seq::empty()
    } else if refined_site(f, y0, y1, all[n - 1]) {
        refined_among(f, y0, y1, all, n - 1).push(all[n - 1])
    } else {
        refined_among(f, y0, y1, all, n - 1)
    }
}

/// The blocks of a layout that a band refines, in row-major order.
pub open spec fn refined_sites(v: Layout, f: Field, y0: int, y1: int) -> Seq<Placement> {
    let all = firsts(v, v.len() as int);
    refined_among(f, y0, y1, all, all.len() as int)
}

/// Lists the blocks that the band `[y0, y1)` refines.
pub fn refinement_sites(map: &AcStrategyImage, field: &QuantField, y0: usize, y1: usize) -> (r: Vec<
    Placement,
>)
    requires
        map.wf(),
        field_shape(field@, map.width() as int, map.height() as int),
    ensures
        r@ == refined_sites(map@, field@, y0 as int, y1 as int),
        forall|i: int|
            0 <= i < r@.len() ==> (#[trigger] r@[i]).x < map.width() && r@[i].y < map.height()
                && map@[r@[i].y as int][r@[i].x as int].first
                && map@[r@[i].y as int][r@[i].x as int].strategy == r@[i].strategy,
{
    proof {
        map.lemma_shape();
        lemma_firsts(map@, map.width() as int, map.height() as int);
    }
    let all: Vec<Placement> = map.first_blocks();
    let mut out: Vec<Placement> = Vec::new();
    let mut i: usize = 0;
    while i < all.len()
        invariant
            i <= all@.len(),
            field_shape(field@, map.width() as int, map.height() as int),
            out@ == refined_among(field@, y0 as int, y1 as int, all@, i as int),
            forall|k: int|
                0 <= k < all@.len() ==> ({
                    let s = #[trigger] all@[k];
                    &&& s.x < map.width()
                    &&& s.y < map.height()
                    &&& map@[s.y as int][s.x as int].first
                    &&& map@[s.y as int][s.x as int].strategy == s.strategy
                }),
            forall|k: int|
                0 <= k < out@.len() ==> (#[trigger] out@[k]).x < map.width() && out@[k].y
                    < map.height() && map@[out@[k].y as int][out@[k].x as int].first
                    && map@[out@[k].y as int][out@[k].x as int].strategy == out@[k].strategy,
        decreases all@.len() - i,
    {
        let s: Placement = all[i];
        assert(all@[i as int].x < map.width());
        assert(field@[s.y as int].len() == map.width());
        if y0 <= s.y && s.y < y1 && !in_dct64_family(s.strategy) && field.get(s.x, s.y) > 1 {
            out.push(s);
        }
        i += 1;
    }
    out
}

/// A quantizer that changes for a whole transform.
#[derive(Clone, Copy, Debug, PartialEq, Eq, Structural)]
pub struct QuantRefinement {
    pub bx: usize,
    pub by: usize,
    pub cov_x: usize,
    pub cov_y: usize,
    pub q: u8,
}

/// What is known of the cost of a block; nothing where no costs were kept.
pub open spec fn known_cost<A>(costs: Option<Costs<A>>, s: Placement) -> Option<A> {
    match costs {
        Some(m) => m[s.y as int][s.x as int],
        None => None,
    }
}

/// The quantizer chosen for a block.
pub open spec fn chosen_quant<A: Amount>(
    f: Field,
    steps: usize,
    costs: Option<Costs<A>>,
    site: Placement,
    s: RefineScores<A>,
) -> u8 {
    best_quant(f[site.y as int][site.x as int], steps, known_cost(costs, site), s, 4).q
}

/// The changes among the leading `n` blocks.
pub open spec fn refinements_of<A: Amount>(
    f: Field,
    steps: usize,
    costs: Option<Costs<A>>,
    sites: Seq<Placement>,
    scores: Seq<RefineScores<A>>,
    n: int,
) -> Seq<QuantRefinement>
    decreases n,
{
    if n <= 0 {
        Seq::empty()
    } else {
        let head = refinements_of(f, steps, costs, sites, scores, n - 1);
        let site = sites[n - 1];
        let q = chosen_quant(f, steps, costs, site, scores[n - 1]);
        if q != f[site.y as int][site.x as int] {
            head.push(
                QuantRefinement {
                    bx: site.x,
                    by: site.y,
                    cov_x: covered_x(site.strategy) as usize,
                    cov_y: covered_y(site.strategy) as usize,
                    q,
                },
            )
        } else {
            head
        }
    }
}

/// The costs kept by the rerank, if there was one, as plain values.
pub open spec fn costs_view<A>(costs: Option<&CostMap<A>>) -> Option<Costs<A>> {
    match costs {
        Some(m) => Some(m@),
        None => None,
    }
}

/// Chooses the quantizers of the band `[y0, y1)` that change. `scores` holds what
/// reconstruction says of each block, in the order of `refinement_sites`; at
/// distances without refinement nothing changes and none is needed.
pub fn find_quant_refinements<A: Amount>(
    map: &AcStrategyImage,
    field: &QuantField,
    distance: A,
    costs: Option<&CostMap<A>>,
    band: (usize, usize),
    scores: &Vec<RefineScores<A>>,
) -> (r: Vec<QuantRefinement>)
    requires
        map.wf(),
        tiled(map@, map.width() as int, map.height() as int),
        field_shape(field@, map.width() as int, map.height() as int),
        costs is Some ==> grid_shape((costs->0)@, map.width() as int, map.height() as int),
        refinement_steps(distance) > 0 ==> scores@.len() == refined_sites(
            map@,
            field@,
            band.0 as int,
            band.1 as int,
        ).len(),
    ensures
        refinement_steps(distance) == 0 ==> r@.len() == 0,
        refinement_steps(distance) > 0 ==> r@ == refinements_of(
            field@,
            refinement_steps(distance),
            costs_view(costs),
            refined_sites(map@, field@, band.0 as int, band.1 as int),
            scores@,
            scores@.len() as int,
        ),
        forall|i: int|
            0 <= i < r@.len() ==> (#[trigger] r@[i]).bx + r@[i].cov_x <= map.width() && r@[i].by
                + r@[i].cov_y <= map.height(),
{
    let mut out: Vec<QuantRefinement> = Vec::new();
    let steps: usize = quant_refinement_steps(distance);
    if steps == 0 {
        return out;
    }
    let sites: Vec<Placement> = refinement_sites(map, field, band.0, band.1);
    let mut i: usize = 0;
    while i < sites.len()
        invariant
            i <= sites@.len(),
            map.wf(),
            tiled(map@, map.width() as int, map.height() as int),
            field_shape(field@, map.width() as int, map.height() as int),
            costs is Some ==> grid_shape((costs->0)@, map.width() as int, map.height() as int),
            scores@.len() == sites@.len(),
            forall|k: int|
                0 <= k < sites@.len() ==> (#[trigger] sites@[k]).x < map.width() && sites@[k].y
                    < map.height() && map@[sites@[k].y as int][sites@[k].x as int].first
                    && map@[sites@[k].y as int][sites@[k].x as int].strategy == sites@[k].strategy,
            forall|k: int|
                0 <= k < out@.len() ==> (#[trigger] out@[k]).bx + out@[k].cov_x <= map.width()
                    && out@[k].by + out@[k].cov_y <= map.height(),
            out@ == refinements_of(
                field@,
                steps,
                costs_view(costs),
                sites@,
                scores@,
                i as int,
            ),
        decreases sites@.len() - i,
    {
        let site: Placement = sites[i];
        assert(sites@[i as int].x < map.width());
        assert(field@[site.y as int].len() == map.width());
        assert(in_bounds(
            map.width() as int,
            map.height() as int,
            site.x as int,
            site.y as int,
        ));
        assert(map@[site.y as int][site.x as int].first);
        let q: u8 = field.get(site.x, site.y);
        let cached: Option<A> = match costs {
            Some(m) => {
                assert(m@[site.y as int].len() == map.width());
                m.get(site.x, site.y)
            },
            None => None,
        };
        let best: u8 = choose_quant(q, steps, cached, &scores[i]);
        if best != q {
            out.push(
                QuantRefinement {
                    bx: site.x,
                    by: site.y,
                    cov_x: covered_blocks_x_of(site.strategy),
                    cov_y: covered_blocks_y_of(site.strategy),
                    q: best,
                },
            );
        }
        i += 1;
    }
    out
}

/// The field after the leading `n` changes.
pub open spec fn after_refinements(f: Field, rs: Seq<QuantRefinement>, n: int) -> Field
    decreases n,
{
    if n <= 0 {
        f
    } else {
        let r = rs[n - 1];
        with_window(
            after_refinements(f, rs, n - 1),
            r.bx as int,
            r.by as int,
            r.cov_x as int,
            r.cov_y as int,
            r.q,
        )
    }
}

/// Puts changes of quantizers into the field.
pub fn refine_quant_field(field: &mut QuantField, rs: &Vec<QuantRefinement>, w: usize, h: usize)
    requires
        field_shape(old(field)@, w as int, h as int),
        forall|i: int|
            0 <= i < rs@.len() ==> (#[trigger] rs@[i]).bx + rs@[i].cov_x <= w && rs@[i].by
                + rs@[i].cov_y <= h,
    ensures
        field_shape(final(field)@, w as int, h as int),
        final(field)@ == after_refinements(old(field)@, rs@, rs@.len() as int),
{
    let ghost f = field@;
    let mut i: usize = 0;
    while i < rs.len()
        invariant
            i <= rs@.len(),
            field_shape(field@, w as int, h as int),
            forall|k: int|
                0 <= k < rs@.len() ==> (#[trigger] rs@[k]).bx + rs@[k].cov_x <= w && rs@[k].by
                    + rs@[k].cov_y <= h,
            field@ == after_refinements(f, rs@, i as int),
        decreases rs@.len() - i,
    {
        let r: QuantRefinement = rs[i];
        assert(rs@[i as int].bx + r.cov_x <= w);
        field.fill(r.bx, r.by, r.cov_x, r.cov_y, r.q);
        i += 1;
    }
}

/// The chosen quantizer is never 0, lies no more than two steps down and one step
/// up, and no quantizer tried costs less than it.
pub proof fn law_chosen_quantizer_costs_least<A: OrderedAmount>(
    q: u8,
    steps: usize,
    cached: Option<A>,
    s: RefineScores<A>,
    n: int,
)
    requires
        q > 1,
        0 <= n <= 4,
    ensures
        ({
            let best = best_quant(q, steps, cached, s, n);
            &&& best.q > 0
            &&& q - 2 <= best.q <= q + 1
            &&& steps != 2 ==> q - 1 <= best.q
            &&& !start_cost(cached, s.current).less_spec(best.cost)
            &&& forall|k: int|
                0 <= k < n && (#[trigger] quant_trials(q, steps)[k]) != 0 && quant_trials(
                    q,
                    steps,
                )[k] != q ==> !s.trials@[k].less_spec(best.cost)
        }),
    decreases n,
{
    A::less_irreflexive(start_cost(cached, s.current));
    if n > 0 {
        law_chosen_quantizer_costs_least(q, steps, cached, s, n - 1);
        lemma_best_is_tried(q, steps, cached, s, n - 1);
        let trials = quant_trials(q, steps);
        let head = best_quant(q, steps, cached, s, n - 1);
        let best = best_quant(q, steps, cached, s, n);
        let last = s.trials@[n - 1];
        A::less_irreflexive(last);
        if best.cost != head.cost {
            if start_cost(cached, s.current).less_spec(last) {
                A::less_transitive(start_cost(cached, s.current), last, head.cost);
            }
        }
        assert(trials[n - 1] != q && trials[n - 1] != 0 ==> head.q != trials[n - 1]) by {
            if head.q != q {
                let j = choose|j: int| 0 <= j < n - 1 && #[trigger] trials[j] == head.q;
                assert(j == 0 || j == 1 || j == 2);
                assert(n == 2 || n == 3 || n == 4);
            }
        }
        assert forall|k: int|
            0 <= k < n && (#[trigger] trials[k]) != 0 && trials[k] != q implies !s.trials@[k].less_spec(
            best.cost,
        ) by {
            if k < n - 1 && s.trials@[k].less_spec(best.cost) && best.cost != head.cost {
                A::less_transitive(s.trials@[k], last, head.cost);
            }
        }
    }
}

/// The best quantizer is `q` or one of those tried.
proof fn lemma_best_is_tried<A: Amount>(
    q: u8,
    steps: usize,
    cached: Option<A>,
    s: RefineScores<A>,
    n: int,
)
    requires
        0 <= n <= 4,
    ensures
        best_quant(q, steps, cached, s, n).q == q || exists|k: int|
            0 <= k < n && #[trigger] quant_trials(q, steps)[k] == best_quant(
                q,
                steps,
                cached,
                s,
                n,
            ).q,
    decreases n,
{
    if n > 0 {
        lemma_best_is_tried(q, steps, cached, s, n - 1);
        if best_quant(q, steps, cached, s, n).q == quant_trials(q, steps)[n - 1] {
            assert(quant_trials(q, steps)[n - 1] == best_quant(q, steps, cached, s, n).q);
        }
    }
}

} // verus!
