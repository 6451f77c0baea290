//! The active-breakpoint optimizer: a dynamic program over the feasible
//! breakpoints that keeps, for each of them, the cheapest way to reach it.
//!
//! The points of a paragraph are its start, its feasible breakpoints in
//! ascending order, and its end. They are processed from left to right. A
//! point is *reached* when a line can end there; a reached point stays
//! *active* until a later point shows that any line from it has become too
//! tight. Each new point is held against the active points only.

use vstd::prelude::*;
use crate::lines::annotate::ascending_positions;
use crate::lines::error::BreakError;
use crate::lines::nodes::{
    lemma_totals_monotone, total_shrinkability, total_stretchability, total_width, Node,
};
use crate::lines::ratio::{
    adjustment_ratio, lemma_base_demerit_bounded, line_ratio, max_base_demerit, total_limit,
    Ratio,
};
use crate::lines::scanner::{
    breakpoint_at, calculate_breakpoint, lemma_totals_in_range, start_breakpoint, Breakpoint,
};

verus! {

/// The extra cost of a line that ends at a flagged penalty when the line
/// before it does so too.
pub const CONSECUTIVE_FLAGS_DEMERIT: u32 = 3000;

/// What the search is run on: the nodes of a paragraph, the breakpoints
/// among which the line ends are chosen, and the two settings that decide
/// which lines are allowed.
pub ghost struct Problem {
    pub nodes: Seq<Node>,
    pub breakpoints: Seq<Breakpoint>,
    pub target_width: u32,
    pub ratio_max: u16,
}

/// A way to reach a point: the point before it, and what the whole way costs.
pub ghost struct Choice {
    pub cost: int,
    pub predecessor: int,
}

/// `breakpoints` are places in `nodes`, in strictly ascending order, each
/// with the totals of the nodes before it.
pub open spec fn valid_breakpoints(nodes: Seq<Node>, breakpoints: Seq<Breakpoint>) -> bool {
    &&& nodes.len() <= usize::MAX
    &&& forall|i: int|
        0 <= i < breakpoints.len() ==> {
            let b = #[trigger] breakpoints[i];
            &&& b.position < nodes.len()
            &&& b == breakpoint_at(nodes, b.position as int)
        }
    &&& forall|i: int, j: int|
        0 <= i < j < breakpoints.len() ==> (#[trigger] breakpoints[i]).position
            < (#[trigger] breakpoints[j]).position
}

impl Problem {
    /// The index of the last point, the end of the paragraph.
    pub open spec fn last(self) -> int {
        (self.breakpoints.len() + 1) as int
    }

    /// Point `b`: the start of the paragraph for 0, its end for `last()`,
    /// and the breakpoints in between.
    pub open spec fn point(self, b: int) -> Breakpoint {
        if b <= 0 {
            breakpoint_at(self.nodes, 0)
        } else if b <= self.breakpoints.len() {
            self.breakpoints[b - 1]
        } else {
            breakpoint_at(self.nodes, self.nodes.len() as int)
        }
    }

    /// The breakpoints are valid for the nodes.
    pub open spec fn wf(self) -> bool {
        valid_breakpoints(self.nodes, self.breakpoints)
    }

    /// The adjustment ratio of the line from point `a` to point `b`.
    pub open spec fn ratio(self, a: int, b: int) -> Ratio {
        line_ratio(self.point(a), self.point(b), self.target_width)
    }

    /// The cost of breaking at point `b`: the penalty of its node. The start
    /// and the end of the paragraph cost nothing.
    pub open spec fn penalty(self, b: int) -> int {
        if 0 < b < self.last() {
            self.nodes[self.point(b).position as int].spec_penalty()
        } else {
            0
        }
    }

    /// Whether point `b` is a flagged penalty.
    pub open spec fn flagged(self, b: int) -> bool {
        0 < b < self.last() && self.nodes[self.point(b).position as int].spec_flagged()
    }

    /// The demerits of the line from point `a` to point `b`.
    pub open spec fn line_demerits(self, a: int, b: int) -> int {
        self.ratio(a, b).base_demerit(self.ratio_max) + self.penalty(b) + if self.flagged(a)
            && self.flagged(b) {
            CONSECUTIVE_FLAGS_DEMERIT as int
        } else {
            0
        }
    }

    /// No point between `a` and `b` has shown a line from `a` to be too
    /// tight: if `a` was reached, it is still active when `b` is processed.
    pub open spec fn survives(self, a: int, b: int) -> bool {
        forall|k: int| a < k < b ==> !(#[trigger] self.ratio(a, k)).too_tight()
    }

    /// The cheapest way to reach point `b` through a point below `j`, if
    /// there is one. Of two ways that cost the same, the one through the
    /// earlier point is kept.
    #[verifier::opaque]
    pub open spec fn best_before(self, b: int, j: int) -> Option<Choice>
        decreases b, j,
    {
        if j <= 0 || j > b {
            None
        } else {
            let a = j - 1;
            let earlier = self.best_before(b, a);
            let own = self.best_before(a, a);
            if (a == 0 || own is Some) && self.survives(a, b) && self.ratio(a, b).admissible(
                self.ratio_max,
            ) {
                let cost = if a == 0 {
                    self.line_demerits(a, b)
                } else {
                    own.unwrap().cost + self.line_demerits(a, b)
                };
                if earlier is Some && earlier.unwrap().cost <= cost {
                    earlier
                } else {
                    Some(Choice { cost, predecessor: a })
                }
            } else {
                earlier
            }
        }
    }

    /// The cheapest way to reach point `b`, if there is one.
    pub open spec fn choice(self, b: int) -> Option<Choice> {
        self.best_before(b, b)
    }

    /// A line can end at point `b`.
    pub open spec fn reached(self, b: int) -> bool {
        b == 0 || self.choice(b) is Some
    }

    /// The least total of demerits with which point `b` is reached.
    pub open spec fn cost(self, b: int) -> int {
        if b == 0 || self.choice(b) is None {
            0
        } else {
            self.choice(b).unwrap().cost
        }
    }

    /// A line from point `a` may end at point `b`: `a` is active when `b` is
    /// processed, and the line is within the tolerance or infinitely loose.
    pub open spec fn usable(self, a: int, b: int) -> bool {
        &&& 0 <= a < b
        &&& self.reached(a)
        &&& self.survives(a, b)
        &&& self.ratio(a, b).admissible(self.ratio_max)
    }

    /// The number of lines on the cheapest way to point `b`.
    pub open spec fn lines(self, b: int) -> nat
        decreases b,
    {
        if b <= 0 {
            0
        } else {
            match self.choice(b) {
                Some(c) => if 0 <= c.predecessor < b {
                    self.lines(c.predecessor) + 1
                } else {
                    0
                },
                None => 0,
            }
        }
    }

    /// Point `b` as the optimizer records it: with the number of lines up to
    /// it, the least total of demerits, and the point before it on the
    /// cheapest way. A point that no line can end at keeps the scanner's
    /// zeros.
    pub open spec fn solved(self, b: int) -> Breakpoint {
        let point = self.point(b);
        match self.choice(b) {
            Some(c) => if b > 0 {
                Breakpoint {
                    line_number: self.lines(b) as usize,
                    total_demerits: c.cost as i128,
                    predecessor: Some(c.predecessor as usize),
                    ..point
                }
            } else {
                point
            },
            None => point,
        }
    }

    /// The table that the optimizer makes: every point, solved.
    pub open spec fn table(self) -> Seq<Breakpoint> {
        Seq::new((self.last() + 1) as nat, |b: int| self.solved(b))
    }
}

/// The search over `breakpoints` of `nodes`.
pub open spec fn problem(
    nodes: Seq<Node>,
    breakpoints: Seq<Breakpoint>,
    target_width: u32,
    ratio_max: u16,
) -> Problem {
    Problem { nodes, breakpoints, target_width, ratio_max }
}

/// The size of the demerits of one line: no line costs more, and none less
/// than the negative of this.
pub open spec fn line_demerits_limit() -> int {
    100 * (u16::MAX * u16::MAX * u16::MAX) + 0x8000_0000 + CONSECUTIVE_FLAGS_DEMERIT
}

/// Every point holds the totals of the nodes before it, and stands in the
/// paragraph.
pub proof fn lemma_point(pb: Problem, b: int)
    requires
        pb.wf(),
    ensures
        pb.point(b) == breakpoint_at(pb.nodes, pb.point(b).position as int),
        pb.point(b).position <= pb.nodes.len(),
        0 < b < pb.last() ==> pb.point(b).position < pb.nodes.len(),
        pb.point(b).total_width == total_width(pb.nodes, pb.point(b).position as int),
        pb.point(b).total_stretchability == total_stretchability(
            pb.nodes,
            pb.point(b).position as int,
        ),
        pb.point(b).total_shrinkability == total_shrinkability(
            pb.nodes,
            pb.point(b).position as int,
        ),
        pb.point(b).total_width <= total_limit(),
        pb.point(b).total_stretchability <= total_limit(),
        pb.point(b).total_shrinkability <= total_limit(),
{
    let position = pb.point(b).position as int;
    if 0 < b <= pb.breakpoints.len() {
        assert(pb.breakpoints[b - 1].position < pb.nodes.len());
    }
    lemma_totals_in_range(pb.nodes, position);
}

/// The points stand in ascending order, so a later point can end a line
/// that an earlier one starts, and the ratio of that line is in range.
pub proof fn lemma_points_ordered(pb: Problem, a: int, b: int)
    requires
        pb.wf(),
        a <= b,
    ensures
        pb.point(a).position <= pb.point(b).position,
        pb.point(a).precedes(pb.point(b)),
        pb.ratio(a, b).in_range(),
{
    lemma_point(pb, a);
    lemma_point(pb, b);
    if 0 < a && b <= pb.breakpoints.len() && a < b {
        assert(pb.breakpoints[a - 1].position < pb.breakpoints[b - 1].position);
    }
    lemma_totals_monotone(pb.nodes, pb.point(a).position as int, pb.point(b).position as int);
    assert(u32::MAX <= total_limit()) by (nonlinear_arith)
        requires
            total_limit() == usize::MAX * u32::MAX,
            usize::MAX >= 1,
    ;
}

/// The table of the search stands in ascending order of position, and its
/// last entry stands at the end of the paragraph.
pub proof fn lemma_table_ascends(pb: Problem)
    requires
        pb.wf(),
    ensures
        ascending_positions(pb.table()),
        pb.table().len() == pb.last() + 1,
        pb.table()[pb.last()].position == pb.nodes.len(),
{
    let table = pb.table();
    assert forall|i: int, j: int| 1 <= i < j < table.len() implies (#[trigger] table[i]).position
        < (#[trigger] table[j]).position by {
        lemma_point(pb, i);
        lemma_point(pb, j);
        if j <= pb.breakpoints.len() {
            assert(pb.breakpoints[i - 1].position < pb.breakpoints[j - 1].position);
        }
    }
}

/// What `best_before` holds: the first of the cheapest usable points below
/// `j`, or nothing if no point below `j` is usable.
pub proof fn lemma_best_before(pb: Problem, b: int, j: int)
    requires
        0 <= j <= b,
    ensures
        match pb.best_before(b, j) {
            Some(c) => {
                &&& 0 <= c.predecessor < j
                &&& pb.usable(c.predecessor, b)
                &&& c.cost == pb.cost(c.predecessor) + pb.line_demerits(c.predecessor, b)
                &&& forall|a: int|
                    0 <= a < j && #[trigger] pb.usable(a, b) ==> c.cost <= pb.cost(a)
                        + pb.line_demerits(a, b)
                &&& forall|a: int|
                    0 <= a < c.predecessor && #[trigger] pb.usable(a, b) ==> c.cost < pb.cost(a)
                        + pb.line_demerits(a, b)
            },
            None => forall|a: int| 0 <= a < j ==> !#[trigger] pb.usable(a, b),
        },
    decreases j,
{
    reveal(Problem::best_before);
    if j > 0 {
        lemma_best_before(pb, b, j - 1);
    }
}

/// Points that are not usable do not change what `best_before` holds.
pub proof fn lemma_best_before_skips(pb: Problem, b: int, from: int, to: int)
    requires
        0 <= from <= to <= b,
        forall|a: int| from <= a < to ==> !#[trigger] pb.usable(a, b),
    ensures
        pb.best_before(b, to) == pb.best_before(b, from),
    decreases to - from,
{
    reveal(Problem::best_before);
    if from < to {
        lemma_best_before_skips(pb, b, from, to - 1);
        assert(!pb.usable(to - 1, b));
    }
}

/// How `best_before` takes one more point in: a usable point replaces what
/// was found before it only if the way through it costs less.
pub proof fn lemma_best_before_step(pb: Problem, b: int, a: int)
    requires
        0 <= a < b,
    ensures
        pb.best_before(b, a + 1) == if pb.usable(a, b) {
            let cost = pb.cost(a) + pb.line_demerits(a, b);
            if pb.best_before(b, a) is Some && pb.best_before(b, a).unwrap().cost <= cost {
                pb.best_before(b, a)
            } else {
                Some(Choice { cost, predecessor: a })
            }
        } else {
            pb.best_before(b, a)
        },
{
    reveal(Problem::best_before);
}

/// The way to a reached point: the point before it is usable, and no usable
/// point gives a cheaper way.
pub proof fn lemma_choice(pb: Problem, b: int)
    requires
        0 < b,
        pb.reached(b),
    ensures
        0 <= pb.choice(b).unwrap().predecessor < b,
        pb.usable(pb.choice(b).unwrap().predecessor, b),
        pb.cost(b) == pb.cost(pb.choice(b).unwrap().predecessor) + pb.line_demerits(
            pb.choice(b).unwrap().predecessor,
            b,
        ),
        pb.lines(b) == pb.lines(pb.choice(b).unwrap().predecessor) + 1,
        forall|a: int| #[trigger]
            pb.usable(a, b) ==> pb.cost(b) <= pb.cost(a) + pb.line_demerits(a, b),
{
    lemma_best_before(pb, b, b);
}

/// A point that is not reached has no usable point before it.
pub proof fn lemma_not_reached(pb: Problem, b: int)
    requires
        0 < b,
        !pb.reached(b),
    ensures
        forall|a: int| !#[trigger] pb.usable(a, b),
{
    lemma_best_before(pb, b, b);
}

/// The demerits of a usable line are no larger than the limit.
pub proof fn lemma_line_demerits_bounded(pb: Problem, a: int, b: int)
    requires
        pb.ratio(a, b).admissible(pb.ratio_max),
    ensures
        -line_demerits_limit() <= pb.line_demerits(a, b) <= line_demerits_limit(),
        0 <= pb.ratio(a, b).base_demerit(pb.ratio_max) <= max_base_demerit(pb.ratio_max),
{
    lemma_base_demerit_bounded(pb.ratio(a, b), pb.ratio_max);
}

/// The total of demerits at point `b` is at most `b` lines of the largest
/// size, and the way to it has at most `b` lines.
pub proof fn lemma_cost_bounded(pb: Problem, b: int)
    requires
        0 <= b,
    ensures
        -(b * line_demerits_limit()) <= pb.cost(b) <= b * line_demerits_limit(),
        pb.lines(b) <= b,
        pb.reached(b) && b > 0 ==> pb.lines(b) >= 1,
    decreases b,
{
    if b > 0 && pb.reached(b) {
        lemma_choice(pb, b);
        let p = pb.choice(b).unwrap().predecessor;
        lemma_cost_bounded(pb, p);
        lemma_line_demerits_bounded(pb, p, b);
        let limit = line_demerits_limit();
        assert(p * limit + limit <= b * limit) by (nonlinear_arith)
            requires
                p + 1 <= b,
                limit >= 0,
        ;
    } else {
        assert(0 <= b * line_demerits_limit()) by (nonlinear_arith)
            requires
                b >= 0,
                line_demerits_limit() >= 0,
        ;
    }
}

/// Entry `b` of a table is linked as the search links it: to an earlier
/// entry from which the line to `b` is admissible, with one line more than
/// that entry and with the demerits of that entry and of the line; or to
/// none, and it counts no lines and no demerits.
pub open spec fn linked(pb: Problem, table: Seq<Breakpoint>, b: int) -> bool {
    match table[b].predecessor {
        Some(p) => {
            &&& p < b
            &&& pb.ratio(p as int, b).admissible(pb.ratio_max)
            &&& table[b].line_number == table[p as int].line_number + 1
            &&& table[b].total_demerits == table[p as int].total_demerits + pb.line_demerits(
                p as int,
                b,
            )
        },
        None => table[b].line_number == 0 && table[b].total_demerits == 0,
    }
}

/// Every entry of the table of a search is linked, and holds the place and
/// the totals of its point.
pub proof fn lemma_table_linked(pb: Problem, b: int)
    requires
        pb.wf(),
        0 <= b <= pb.last(),
        pb.last() <= usize::MAX,
    ensures
        linked(pb, pb.table(), b),
        pb.table()[b].position == pb.point(b).position,
        pb.table()[b].total_width == pb.point(b).total_width,
        pb.table()[b].total_stretchability == pb.point(b).total_stretchability,
        pb.table()[b].total_shrinkability == pb.point(b).total_shrinkability,
        pb.table()[b].total_demerits == pb.cost(b),
        pb.table()[b].line_number == pb.lines(b),
        pb.table()[b].predecessor is Some <==> b > 0 && pb.reached(b),
{
    lemma_point(pb, b);
    lemma_cost_bounded(pb, b);
    lemma_limit_fits(b);
    if b > 0 && pb.reached(b) {
        lemma_choice(pb, b);
        let p = pb.choice(b).unwrap().predecessor;
        lemma_point(pb, p);
        lemma_cost_bounded(pb, p);
        lemma_limit_fits(p);
    }
}

/// `active` is the active set when point `b` is about to be processed: the
/// reached points below `b` from which no line has yet become too tight, in
/// ascending order.
pub open spec fn active_before(pb: Problem, active: Seq<usize>, b: int) -> bool {
    &&& forall|s: int, t: int|
        0 <= s < t < active.len() ==> (#[trigger] active[s]) < (#[trigger] active[t])
    &&& forall|t: int|
        0 <= t < active.len() ==> {
            let a = #[trigger] active[t];
            &&& a < b
            &&& pb.reached(a as int)
            &&& pb.survives(a as int, b)
        }
    &&& forall|a: int|
        0 <= a < b && #[trigger] pb.reached(a) && pb.survives(a, b) ==> exists|t: int|
            0 <= t < active.len() && #[trigger] active[t] == a
}

/// The best way found so far, as the search holds it, is the one that the
/// model holds.
pub open spec fn same_choice(found: Option<(i128, usize)>, choice: Option<Choice>) -> bool {
    match found {
        Some((cost, predecessor)) => choice == Some(
            Choice { cost: cost as int, predecessor: predecessor as int },
        ),
        None => choice is None,
    }
}

/// What holding a new point against one active point comes to.
enum Verdict {
    /// The line between the two is too tight: the active point is dropped.
    TooTight,
    /// The line is too loose for the tolerance: the active point stays.
    TooLoose,
    /// The line is admissible, and the way through the active point costs
    /// `cost` in all.
    Fits { cost: i128 },
}

/// Holds the point `to`, which is point `b`, against point `a` of the table.
fn consider(
    nodes: &Vec<Node>,
    table: &Vec<Breakpoint>,
    a: usize,
    to: &Breakpoint,
    to_penalty: i32,
    to_flagged: bool,
    target_width: u32,
    ratio_max: u16,
    Ghost(pb): Ghost<Problem>,
) -> (verdict: Verdict)
    requires
        pb.wf(),
        pb.nodes == nodes@,
        pb.target_width == target_width,
        pb.ratio_max == ratio_max,
        a < table.len() <= pb.last(),
        *to == pb.point(table.len() as int),
        to_penalty == pb.penalty(table.len() as int),
        to_flagged == pb.flagged(table.len() as int),
        table[a as int] == pb.solved(a as int),
    ensures
        match verdict {
            Verdict::TooTight => pb.ratio(a as int, table.len() as int).too_tight(),
            Verdict::TooLoose => !pb.ratio(a as int, table.len() as int).too_tight()
                && !pb.ratio(a as int, table.len() as int).admissible(ratio_max),
            Verdict::Fits { cost } => !pb.ratio(a as int, table.len() as int).too_tight()
                && pb.ratio(a as int, table.len() as int).admissible(ratio_max) && cost
                == pb.cost(a as int) + pb.line_demerits(a as int, table.len() as int),
        },
{
    let ghost b: int = table.len() as int;
    proof {
        lemma_point(pb, a as int);
        lemma_points_ordered(pb, a as int, b);
    }
    let from: &Breakpoint = &table[a];
    let ratio: Ratio = adjustment_ratio(from, to, target_width);
    assert(ratio == pb.ratio(a as int, b));
    if ratio.is_too_tight() {
        Verdict::TooTight
    } else if ratio.is_admissible(ratio_max) {
        let base: u64 = ratio.demerit(ratio_max);
        let from_flagged: bool = if a == 0 {
            false
        } else {
            nodes[from.position].is_flagged()
        };
        let flags: i128 = if from_flagged && to_flagged {
            CONSECUTIVE_FLAGS_DEMERIT as i128
        } else {
            0
        };
        proof {
            lemma_cost_bounded(pb, a as int);
            lemma_line_demerits_bounded(pb, a as int, b);
            lemma_limit_fits(a as int);
        }
        assert(from.total_demerits == pb.cost(a as int));
        let cost: i128 = from.total_demerits + base as i128 + to_penalty as i128 + flags;
        Verdict::Fits { cost }
    } else {
        Verdict::TooLoose
    }
}

/// The demerits of as many lines as a table can hold fit an `i128`.
proof fn lemma_limit_fits(b: int)
    requires
        0 <= b <= usize::MAX,
    ensures
        b * line_demerits_limit() + line_demerits_limit()
            <= 0x4000_0000_0000_0000_0000_0000_0000_0000,
        0 <= line_demerits_limit() <= 0x100_0000_0000_0000,
{
    assert(u16::MAX * u16::MAX * u16::MAX == 281_462_092_005_375) by (nonlinear_arith)
        requires
            u16::MAX == 65_535,
    ;
    assert(b * line_demerits_limit() <= 0xffff_ffff_ffff_ffff * 0x100_0000_0000_0000)
        by (nonlinear_arith)
        requires
            0 <= b <= 0xffff_ffff_ffff_ffff,
            0 <= line_demerits_limit() <= 0x100_0000_0000_0000,
    ;
}

/// Holds the new point against every active point. Active points from which
/// the line to the new point is too tight leave the active set; of the others,
/// those from which the line is admissible compete for being the point before
/// the new one. The new point joins the active set if a line can end there.
fn extend(
    nodes: &Vec<Node>,
    table: &Vec<Breakpoint>,
    active: &Vec<usize>,
    point: &Breakpoint,
    is_last: bool,
    target_width: u32,
    ratio_max: u16,
    Ghost(pb): Ghost<Problem>,
) -> (out: (Breakpoint, Vec<usize>))
    requires
        pb.wf(),
        pb.nodes == nodes@,
        pb.target_width == target_width,
        pb.ratio_max == ratio_max,
        1 <= table.len() <= pb.last(),
        is_last == (table.len() == pb.last()),
        *point == pb.point(table.len() as int),
        forall|i: int| 0 <= i < table.len() ==> #[trigger] table[i] == pb.solved(i),
        active_before(pb, active@, table.len() as int),
    ensures
        out.0 == pb.solved(table.len() as int),
        active_before(pb, out.1@, table.len() + 1),
{
    let b: usize = table.len();
    proof {
        lemma_point(pb, b as int);
    }
    let point_penalty: i32 = if is_last {
        0
    } else {
        nodes[point.position].penalty()
    };
    let point_flagged: bool = if is_last {
        false
    } else {
        nodes[point.position].is_flagged()
    };
    let mut best: Option<(i128, usize)> = None;
    let mut kept: Vec<usize> = Vec::new();
    let mut t: usize = 0;
    proof {
        lemma_gap_is_unusable(pb, active@, b as int, 0);
        reveal(Problem::best_before);
    }
    while t < active.len()
        invariant
            pb.wf(),
            pb.nodes == nodes@,
            pb.target_width == target_width,
            pb.ratio_max == ratio_max,
            b == table.len(),
            1 <= b <= pb.last(),
            *point == pb.point(b as int),
            point_penalty == pb.penalty(b as int),
            point_flagged == pb.flagged(b as int),
            forall|i: int| 0 <= i < table.len() ==> #[trigger] table[i] == pb.solved(i),
            active_before(pb, active@, b as int),
            t <= active.len(),
            same_choice(best, pb.best_before(b as int, next_active(active@, t as int, b as int))),
            forall|s: int, u: int|
                0 <= s < u < kept.len() ==> (#[trigger] kept[s]) < (#[trigger] kept[u]),
            forall|u: int|
                0 <= u < kept.len() ==> {
                    let a = #[trigger] kept[u];
                    &&& a < next_active(active@, t as int, b as int)
                    &&& pb.reached(a as int)
                    &&& pb.survives(a as int, b as int)
                    &&& !pb.ratio(a as int, b as int).too_tight()
                },
            forall|s: int|
                0 <= s < t && !pb.ratio((#[trigger] active[s]) as int, b as int).too_tight()
                    ==> exists|u: int| 0 <= u < kept.len() && #[trigger] kept[u] == active[s],
        decreases active.len() - t,
    {
        let a: usize = active[t];
        assert(table[a as int] == pb.solved(a as int));
        let verdict: Verdict = consider(
            nodes,
            table,
            a,
            point,
            point_penalty,
            point_flagged,
            target_width,
            ratio_max,
            Ghost(pb),
        );
        proof {
            lemma_best_before_step(pb, b as int, a as int);
            lemma_gap_is_unusable(pb, active@, b as int, t + 1);
            assert(next_active(active@, t as int, b as int) == a);
            assert(a < next_active(active@, t + 1, b as int));
        }
        let ghost old_kept = kept@;
        match verdict {
            Verdict::TooTight => {},
            Verdict::TooLoose => {
                kept.push(a);
            },
            Verdict::Fits { cost } => {
                kept.push(a);
                let better: bool = match best {
                    Some((least, _)) => cost < least,
                    None => true,
                };
                if better {
                    best = Some((cost, a));
                }
            },
        }
        proof {
            if !pb.ratio(a as int, b as int).too_tight() {
                assert(kept@ == old_kept.push(a));
                assert(kept[kept.len() - 1] == active[t as int]);
                assert forall|s: int|
                    0 <= s < t + 1 && !pb.ratio(
                        (#[trigger] active[s]) as int,
                        b as int,
                    ).too_tight() implies exists|u: int|
                    0 <= u < kept.len() && #[trigger] kept[u] == active[s] by {
                    if s < t {
                        let u = choose|u: int|
                            0 <= u < old_kept.len() && #[trigger] old_kept[u] == active[s];
                        assert(kept[u] == active[s]);
                    } else {
                        assert(kept[kept.len() - 1] == active[s]);
                    }
                }
            }
        }
        t = t + 1;
    }
    assert(next_active(active@, t as int, b as int) == b);
    proof {
        lemma_cost_bounded(pb, b as int);
        lemma_limit_fits(b as int);
    }
    match best {
        Some((cost, predecessor)) => {
            proof {
                lemma_choice(pb, b as int);
                lemma_cost_bounded(pb, predecessor as int);
                assert(table[predecessor as int] == pb.solved(predecessor as int));
            }
            let ghost survivors = kept@;
            kept.push(b);
            proof {
                assert forall|s: int|
                    0 <= s < active.len() && !pb.ratio(
                        (#[trigger] active[s]) as int,
                        b as int,
                    ).too_tight() implies exists|u: int|
                    0 <= u < kept.len() && #[trigger] kept[u] == active[s] by {
                    let u = choose|u: int|
                        0 <= u < survivors.len() && #[trigger] survivors[u] == active[s];
                    assert(kept[u] == active[s]);
                }
            }
            let entry: Breakpoint = Breakpoint {
                position: point.position,
                line_number: table[predecessor].line_number + 1,
                total_width: point.total_width,
                total_stretchability: point.total_stretchability,
                total_shrinkability: point.total_shrinkability,
                total_demerits: cost,
                predecessor: Some(predecessor),
            };
            proof {
                lemma_active_after(pb, active@, kept@, b as int);
            }
            (entry, kept)
        },
        None => {
            proof {
                lemma_active_after(pb, active@, kept@, b as int);
            }
            (*point, kept)
        },
    }
}

/// Once the active set is empty, no later point is reached: there is no way
/// on.
proof fn lemma_no_way_on(pb: Problem, from: int, b: int)
    requires
        active_before(pb, Seq::<usize>::empty(), from),
        1 <= from <= b,
    ensures
        !pb.reached(b),
    decreases b - from,
{
    assert forall|a: int| 0 <= a < b implies !#[trigger] pb.usable(a, b) by {
        if a < from {
            if pb.reached(a) && pb.survives(a, b) {
                assert forall|k: int| a < k < from implies !(#[trigger] pb.ratio(
                    a,
                    k,
                )).too_tight() by {
                    assert(pb.survives(a, b));
                }
                assert(pb.survives(a, from));
            }
        } else {
            lemma_no_way_on(pb, from, a);
        }
    }
    lemma_best_before_skips(pb, b, 0, b);
    reveal(Problem::best_before);
}

/// Searches for the cheapest way to break the paragraph at some of the
/// `feasible` breakpoints.
///
/// The points are processed from left to right, the end of the paragraph
/// last, which is held against the active set like any other point. The
/// table that is returned holds the start, every breakpoint and the end, each
/// with the least total of demerits that it is reached with, the number of
/// lines up to it, and the index in the table of the point before it on that
/// way. Where the active set runs empty, or no line can end at the end of
/// the paragraph, nothing is returned but the tolerance that was too strict.
pub fn optimize(
    nodes: &Vec<Node>,
    feasible: &Vec<Breakpoint>,
    target_width: u32,
    ratio_max: u16,
) -> (result: Result<Vec<Breakpoint>, BreakError>)
    requires
        valid_breakpoints(nodes@, feasible@),
    ensures
        match result {
            Ok(table) => {
                let pb = problem(nodes@, feasible@, target_width, ratio_max);
                &&& pb.reached(pb.last())
                &&& table@ == pb.table()
                &&& table.len() == feasible.len() + 2
                &&& table[table.len() - 1].predecessor is Some
                &&& forall|b: int| 0 <= b < table.len() ==> #[trigger] linked(pb, table@, b)
            },
            Err(error) => {
                let pb = problem(nodes@, feasible@, target_width, ratio_max);
                !pb.reached(pb.last()) && error == (BreakError::NoFeasibleBreak { ratio_max })
            },
        },
{
    let ghost pb = problem(nodes@, feasible@, target_width, ratio_max);
    let start: Breakpoint = start_breakpoint();
    let mut table: Vec<Breakpoint> = Vec::new();
    table.push(start);
    let mut active: Vec<usize> = Vec::new();
    active.push(0);
    let mut index: usize = 0;
    proof {
        reveal(Problem::best_before);
        assert(start == breakpoint_at(nodes@, 0));
        assert(table[0] == pb.solved(0));
        assert(active[0] == 0);
    }
    while index < feasible.len()
        invariant
            pb == problem(nodes@, feasible@, target_width, ratio_max),
            pb.wf(),
            index <= feasible.len(),
            table.len() == index + 1,
            forall|i: int| 0 <= i < table.len() ==> #[trigger] table[i] == pb.solved(i),
            active_before(pb, active@, index + 1),
        decreases feasible.len() - index,
    {
        let point: Breakpoint = feasible[index];
        let (entry, next) = extend(
            nodes,
            &table,
            &active,
            &point,
            false,
            target_width,
            ratio_max,
            Ghost(pb),
        );
        if next.len() == 0 {
            proof {
                lemma_no_way_on(pb, index + 2, pb.last());
            }
            return Err(BreakError::NoFeasibleBreak { ratio_max });
        }
        table.push(entry);
        active = next;
        index = index + 1;
    }
    let previous: Breakpoint = if feasible.len() == 0 {
        start
    } else {
        feasible[feasible.len() - 1]
    };
    proof {
        assert(start == breakpoint_at(nodes@, 0));
    }
    let end: Breakpoint = calculate_breakpoint(nodes, &previous, nodes.len());
    let (entry, _) = extend(nodes, &table, &active, &end, true, target_width, ratio_max, Ghost(pb));
    match entry.predecessor {
        Some(_) => {
            table.push(entry);
            assert(table@ =~= pb.table());
            proof {
                assert forall|b: int| 0 <= b < table.len() implies #[trigger] linked(
                    pb,
                    table@,
                    b,
                ) by {
                    lemma_table_linked(pb, b);
                }
            }
            Ok(table)
        },
        None => Err(BreakError::NoFeasibleBreak { ratio_max }),
    }
}

/// The `t`-th active point, or `b` when the active set has fewer.
pub open spec fn next_active(active: Seq<usize>, t: int, b: int) -> int {
    if 0 <= t < active.len() {
        active[t] as int
    } else {
        b
    }
}

/// The points between one active point and the next are not usable, and so
/// `best_before` holds the same at both.
proof fn lemma_gap_is_unusable(pb: Problem, active: Seq<usize>, b: int, t: int)
    requires
        active_before(pb, active, b),
        0 <= t <= active.len(),
        0 <= b,
    ensures
        t == 0 ==> pb.best_before(b, next_active(active, t, b)) == pb.best_before(b, 0),
        t > 0 ==> active[t - 1] < next_active(active, t, b) <= b && pb.best_before(
            b,
            next_active(active, t, b),
        ) == pb.best_before(b, active[t - 1] + 1),
{
    let next = next_active(active, t, b);
    let from: int = if t == 0 {
        0
    } else {
        active[t - 1] + 1
    };
    if t > 0 && t < active.len() {
        assert(active[t - 1] < active[t]);
    }
    assert forall|x: int| from <= x < next implies !#[trigger] pb.usable(x, b) by {
        if pb.reached(x) && pb.survives(x, b) {
            let s = choose|s: int| 0 <= s < active.len() && #[trigger] active[s] == x;
            if s < t {
                if s < t - 1 {
                    assert(active[s] < active[t - 1]);
                }
            } else {
                if t < s {
                    assert(active[t] < active[s]);
                }
            }
        }
    }
    lemma_best_before_skips(pb, b, from, next);
}

/// The active set after point `b` was processed: what was active and has not
/// become too tight, and `b` itself if it was reached.
proof fn lemma_active_after(pb: Problem, active: Seq<usize>, kept: Seq<usize>, b: int)
    requires
        active_before(pb, active, b),
        forall|s: int, u: int|
            0 <= s < u < kept.len() ==> (#[trigger] kept[s]) < (#[trigger] kept[u]),
        forall|u: int|
            0 <= u < kept.len() ==> {
                let a = #[trigger] kept[u];
                &&& a <= b
                &&& pb.reached(a as int)
                &&& pb.survives(a as int, b)
                &&& a < b ==> !pb.ratio(a as int, b).too_tight()
            },
        forall|s: int|
            0 <= s < active.len() && !pb.ratio((#[trigger] active[s]) as int, b).too_tight()
                ==> exists|u: int| 0 <= u < kept.len() && #[trigger] kept[u] == active[s],
        pb.reached(b) ==> kept.len() > 0 && kept[kept.len() - 1] == b,
    ensures
        active_before(pb, kept, b + 1),
{
    assert forall|u: int| 0 <= u < kept.len() implies pb.survives(
        (#[trigger] kept[u]) as int,
        b + 1,
    ) by {
        let a = kept[u] as int;
        assert forall|k: int| a < k < b + 1 implies !(#[trigger] pb.ratio(a, k)).too_tight() by {
            if k < b {
                assert(pb.survives(a, b));
            }
        }
    }
    assert forall|a: int|
        0 <= a < b + 1 && #[trigger] pb.reached(a) && pb.survives(a, b + 1) implies exists|
        u: int,
    |
        0 <= u < kept.len() && #[trigger] kept[u] == a by {
        if a < b {
            assert(!pb.ratio(a, b).too_tight());
            assert(pb.survives(a, b)) by {
                assert forall|k: int| a < k < b implies !(#[trigger] pb.ratio(
                    a,
                    k,
                )).too_tight() by {
                    assert(pb.survives(a, b + 1));
                }
            }
            let s = choose|s: int| 0 <= s < active.len() && #[trigger] active[s] == a;
            assert(!pb.ratio(active[s] as int, b).too_tight());
        } else {
            assert(kept[kept.len() - 1] == a);
        }
    }
}

} // verus!
