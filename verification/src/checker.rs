//! The beam simulator.
//!
//! A `Checker` takes a board, seeds one beam at the laser piece, and marches
//! all live beams until none remain, recording every traversed
//! (cell, direction) pair in a visited table.  A beam stops when it leaves
//! the board (which spoils the solution), loops onto an already-recorded
//! pair, is absorbed, or reaches a piece whose rotation is not yet set (the
//! cell is recorded for later orientation branching).
//!
//! The whole march is mirrored by the specification function [`spec_run`]:
//! the executable simulation provably computes exactly `spec_run` of its
//! starting state.  `spec_run` terminates because every newly scheduled beam
//! marks one fresh entry of the finite visited table — the measure
//! [`sim_measure`] (unvisited entries plus live beams) strictly decreases
//! with every generation.

use vstd::prelude::*;
use vstd::multiset::Multiset;

use crate::active_laser::{spec_next_position, ActiveLaser};
use crate::orientation::{ord_of, Orientation};
use crate::solver_node::{
    bag_wf, cells_wf, first_laser, lemma_first_laser_holds_laser, placement_child,
    placement_covered, placement_sound, rotation_child, rotation_covered, rotation_sound,
    spec_allowed_orientation_indices, SolverNode,
};
use crate::token::{
    spec_token_after_interaction, spec_world_outbound, token_core, token_wf,
    LaserTokenInteractionResult, Token,
};

verus! {

/// The state of one simulation pass, as the specification sees it.
#[verifier::ext_equal]
pub ghost struct SimState {
    /// The 25 board cells; beam interactions update tokens' lit state.
    pub cells: Seq<Option<Token>>,
    /// 100 entries: entry `4 * cell + direction` records that a beam left
    /// `cell` travelling in `direction`.
    pub visited: Seq<bool>,
    /// The live beam fronts.
    pub active: Seq<ActiveLaser>,
    /// False once any beam has left the board or hit a side a piece cannot
    /// accept.
    pub on_board: bool,
    /// Cells where a beam reached a piece whose rotation is not yet set.
    pub unoriented: Seq<usize>,
}

/// Index of (cell, direction) in the visited table.
pub open spec fn vis_idx(cell: int, dir: Orientation) -> int {
    4 * cell + ord_of(dir)
}

/// Well-formedness of a simulation state: board and table have their fixed
/// sizes, placed tokens are well formed, live beams sit on the board, and
/// every recorded unoriented cell indeed holds an unrotated token.
pub open spec fn sim_inv(s: SimState) -> bool {
    &&& cells_wf(s.cells)
    &&& s.visited.len() == 100
    &&& forall|k: int| 0 <= k < s.active.len() ==> (#[trigger] s.active[k]).cell_index < 25
    &&& forall|k: int|
        0 <= k < s.unoriented.len() ==> {
            let c = (#[trigger] s.unoriented[k]) as int;
            &&& c < 25
            &&& s.cells[c] is Some
            &&& s.cells[c]->0.orientation is None
        }
}

/// Number of entries of the visited table still false.
pub open spec fn count_unvisited(v: Seq<bool>) -> nat
    decreases v.len(),
{
    if v.len() == 0 {
        0
    } else {
        count_unvisited(v.drop_last()) + if v.last() {
            0nat
        } else {
            1nat
        }
    }
}

/// The termination measure of a simulation state: unvisited table entries
/// plus live beams.  Scheduling a beam always marks a fresh entry, so a
/// whole generation leaves the measure lower by the number of beams it
/// consumed.
pub open spec fn sim_measure(s: SimState) -> nat {
    count_unvisited(s.visited) + s.active.len()
}

/// Absorbs one interaction outcome produced at `cell`: an outgoing beam is
/// scheduled unless its (cell, direction) pair is already recorded; an
/// invalid stop clears the on-board flag.
pub open spec fn spec_absorb_result(
    s: SimState,
    cell: int,
    r: LaserTokenInteractionResult,
) -> SimState {
    match r {
        LaserTokenInteractionResult::OutboundLaser(d) => {
            if s.visited[vis_idx(cell, d)] {
                s
            } else {
                SimState {
                    visited: s.visited.update(vis_idx(cell, d), true),
                    active: s.active.push(
                        ActiveLaser { cell_index: cell as usize, orientation: d },
                    ),
                    ..s
                }
            }
        },
        LaserTokenInteractionResult::NoOutboundLaser { valid } => {
            if valid {
                s
            } else {
                SimState { on_board: false, ..s }
            }
        },
    }
}

/// Advances one beam front by a single step: off the board clears the
/// on-board flag; an empty cell lets the beam continue (once per pair); an
/// unrotated piece pauses the beam and records the cell; a rotated piece
/// interacts and both outcomes are absorbed.
pub open spec fn spec_advance_one(s: SimState, laser: ActiveLaser) -> SimState {
    match spec_next_position(laser.cell_index as int, laser.orientation) {
        None => SimState { on_board: false, ..s },
        Some(next) => {
            match s.cells[next] {
                None => {
                    if s.visited[vis_idx(next, laser.orientation)] {
                        s
                    } else {
                        SimState {
                            visited: s.visited.update(vis_idx(next, laser.orientation), true),
                            active: s.active.push(
                                ActiveLaser {
                                    cell_index: next as usize,
                                    orientation: laser.orientation,
                                },
                            ),
                            ..s
                        }
                    }
                },
                Some(token) => {
                    if token.orientation is None {
                        SimState { unoriented: s.unoriented.push(next as usize), ..s }
                    } else {
                        let t2 = spec_token_after_interaction(token, laser.orientation);
                        let rs = spec_world_outbound(token, laser.orientation);
                        let s1 = SimState { cells: s.cells.update(next, Some(t2)), ..s };
                        spec_absorb_result(spec_absorb_result(s1, next, rs.0), next, rs.1)
                    }
                },
            }
        },
    }
}

/// Advances the given beam fronts in order, accumulating their successors
/// in `s.active`.
pub open spec fn spec_advance_all(s: SimState, lasers: Seq<ActiveLaser>) -> SimState
    decreases lasers.len(),
{
    if lasers.len() == 0 {
        s
    } else {
        spec_advance_all(spec_advance_one(s, lasers[0]), lasers.drop_first())
    }
}

/// One generation: every live beam advances one step; their successors
/// become the next generation.
pub open spec fn spec_generation(s: SimState) -> SimState {
    spec_advance_all(SimState { active: Seq::empty(), ..s }, s.active)
}

/// The completed simulation: generations follow one another until no live
/// beam remains.
pub open spec fn spec_run(s: SimState) -> SimState
    decreases sim_measure(s),
        when sim_inv(s)
        via spec_run_decreases
{
    if s.active.len() == 0 {
        s
    } else {
        spec_run(spec_generation(s))
    }
}

#[via_fn]
proof fn spec_run_decreases(s: SimState) {
    if sim_inv(s) && s.active.len() > 0 {
        lemma_generation_props(s);
    }
}

/// The pristine simulation state for a board: nothing visited, no beam
/// live, no fault recorded.
pub open spec fn fresh_state(cells: Seq<Option<Token>>) -> SimState {
    SimState {
        cells,
        visited: Seq::new(100, |i: int| false),
        active: Seq::empty(),
        on_board: true,
        unoriented: Seq::empty(),
    }
}

/// Seeding of the simulation: the first laser piece, if any, emits one beam
/// in its own direction and its (cell, direction) pair is recorded.
pub open spec fn spec_initialize(s: SimState) -> SimState {
    match first_laser(s.cells) {
        None => s,
        Some(i) => {
            let dir = s.cells[i]->0.orientation->0;
            SimState {
                visited: s.visited.update(vis_idx(i, dir), true),
                active: s.active.push(ActiveLaser { cell_index: i as usize, orientation: dir }),
                ..s
            }
        },
    }
}

/// The same placement: both boards hold tokens in the same cells with the
/// same type, rotation and must-light flag; only lit state may differ.
pub open spec fn cells_core_eq(a: Seq<Option<Token>>, b: Seq<Option<Token>>) -> bool {
    &&& a.len() == b.len()
    &&& forall|i: int|
        0 <= i < a.len() ==> {
            &&& ((#[trigger] a[i]) is Some <==> (#[trigger] b[i]) is Some)
            &&& (a[i] is Some ==> token_core(a[i]->0) == token_core(b[i]->0))
        }
}

/// The unvisited count never exceeds the table's size.
proof fn lemma_count_unvisited_le(v: Seq<bool>)
    ensures
        count_unvisited(v) <= v.len(),
    decreases v.len(),
{
    if v.len() > 0 {
        lemma_count_unvisited_le(v.drop_last());
    }
}

/// Marking one fresh entry of the visited table lowers the unvisited count
/// by exactly one.
proof fn lemma_count_unvisited_update(v: Seq<bool>, i: int)
    requires
        0 <= i < v.len(),
        !v[i],
    ensures
        count_unvisited(v.update(i, true)) + 1 == count_unvisited(v),
    decreases v.len(),
{
    if i == v.len() - 1 {
        assert(v.update(i, true).drop_last() =~= v.drop_last());
    } else {
        assert(v.update(i, true).drop_last() =~= v.drop_last().update(i, true));
        lemma_count_unvisited_update(v.drop_last(), i);
    }
}

/// Absorbing one outcome preserves well-formedness and the measure, and
/// touches neither cells nor paused-cell records.
proof fn lemma_absorb_props(s: SimState, cell: int, r: LaserTokenInteractionResult)
    requires
        sim_inv(s),
        0 <= cell < 25,
    ensures
        sim_inv(spec_absorb_result(s, cell, r)),
        sim_measure(spec_absorb_result(s, cell, r)) == sim_measure(s),
        spec_absorb_result(s, cell, r).cells == s.cells,
        spec_absorb_result(s, cell, r).unoriented == s.unoriented,
        cells_unlit_unoriented(s.cells) ==> cells_unlit_unoriented(
            spec_absorb_result(s, cell, r).cells,
        ),
{
    match r {
        LaserTokenInteractionResult::OutboundLaser(d) => {
            if !s.visited[vis_idx(cell, d)] {
                lemma_count_unvisited_update(s.visited, vis_idx(cell, d));
            }
        },
        LaserTokenInteractionResult::NoOutboundLaser { valid } => {},
    }
}

/// Advancing one beam preserves well-formedness and the measure, keeps the
/// placement (only lit state changes), and only appends paused cells.
proof fn lemma_advance_one_props(s: SimState, laser: ActiveLaser)
    requires
        sim_inv(s),
        laser.cell_index < 25,
    ensures
        sim_inv(spec_advance_one(s, laser)),
        sim_measure(spec_advance_one(s, laser)) == sim_measure(s),
        cells_core_eq(spec_advance_one(s, laser).cells, s.cells),
        cells_unlit_unoriented(s.cells) ==> cells_unlit_unoriented(
            spec_advance_one(s, laser).cells,
        ),
        spec_advance_one(s, laser).unoriented.len() <= s.unoriented.len() + 1,
{
    match spec_next_position(laser.cell_index as int, laser.orientation) {
        None => {},
        Some(next) => {
            match s.cells[next] {
                None => {
                    if !s.visited[vis_idx(next, laser.orientation)] {
                        lemma_count_unvisited_update(s.visited, vis_idx(next, laser.orientation));
                    }
                },
                Some(token) => {
                    if token.orientation is Some {
                        let t2 = spec_token_after_interaction(token, laser.orientation);
                        let rs = spec_world_outbound(token, laser.orientation);
                        let s1 = SimState { cells: s.cells.update(next, Some(t2)), ..s };
                        assert(sim_inv(s1));
                        lemma_absorb_props(s1, next, rs.0);
                        lemma_absorb_props(spec_absorb_result(s1, next, rs.0), next, rs.1);
                        assert(cells_core_eq(spec_advance_one(s, laser).cells, s.cells));
                    }
                },
            }
        },
    }
}

/// Core-placement equality is transitive.
proof fn lemma_cells_core_eq_trans(a: Seq<Option<Token>>, b: Seq<Option<Token>>, c: Seq<
    Option<Token>,
>)
    requires
        cells_core_eq(a, b),
        cells_core_eq(b, c),
    ensures
        cells_core_eq(a, c),
{
    assert forall|i: int| 0 <= i < a.len() implies {
        &&& ((#[trigger] a[i]) is Some <==> (#[trigger] c[i]) is Some)
        &&& (a[i] is Some ==> token_core(a[i]->0) == token_core(c[i]->0))
    } by {
        assert(a[i] is Some <==> b[i] is Some);
        if a[i] is Some {
            assert(token_core(a[i]->0) == token_core(b[i]->0));
        }
    }
}

/// Advancing a list of beams preserves well-formedness, the measure, and
/// the placement.
proof fn lemma_advance_all_props(s: SimState, lasers: Seq<ActiveLaser>)
    requires
        sim_inv(s),
        forall|k: int| 0 <= k < lasers.len() ==> (#[trigger] lasers[k]).cell_index < 25,
    ensures
        sim_inv(spec_advance_all(s, lasers)),
        sim_measure(spec_advance_all(s, lasers)) == sim_measure(s),
        cells_core_eq(spec_advance_all(s, lasers).cells, s.cells),
        cells_unlit_unoriented(s.cells) ==> cells_unlit_unoriented(
            spec_advance_all(s, lasers).cells,
        ),
        spec_advance_all(s, lasers).unoriented.len() <= s.unoriented.len() + lasers.len(),
    decreases lasers.len(),
{
    if lasers.len() == 0 {
        assert(cells_core_eq(s.cells, s.cells));
    } else {
        lemma_advance_one_props(s, lasers[0]);
        let s1 = spec_advance_one(s, lasers[0]);
        lemma_advance_all_props(s1, lasers.drop_first());
        lemma_cells_core_eq_trans(
            spec_advance_all(s1, lasers.drop_first()).cells,
            s1.cells,
            s.cells,
        );
    }
}

/// One generation preserves well-formedness and the placement, and lowers
/// the measure by exactly the number of beams it consumed.
proof fn lemma_generation_props(s: SimState)
    requires
        sim_inv(s),
    ensures
        sim_inv(spec_generation(s)),
        sim_measure(spec_generation(s)) + s.active.len() == sim_measure(s),
        cells_core_eq(spec_generation(s).cells, s.cells),
        cells_unlit_unoriented(s.cells) ==> cells_unlit_unoriented(spec_generation(s).cells),
        spec_generation(s).unoriented.len() + sim_measure(spec_generation(s))
            <= s.unoriented.len() + sim_measure(s),
{
    let base = SimState { active: Seq::empty(), ..s };
    assert(sim_inv(base));
    lemma_advance_all_props(base, s.active);
}

/// A completed run preserves well-formedness and the placement: the
/// simulation only turns lit state on, it never moves or rotates a piece.
pub proof fn lemma_run_props(s: SimState)
    requires
        sim_inv(s),
    ensures
        sim_inv(spec_run(s)),
        cells_core_eq(spec_run(s).cells, s.cells),
        cells_unlit_unoriented(s.cells) ==> cells_unlit_unoriented(spec_run(s).cells),
        spec_run(s).unoriented.len() + sim_measure(spec_run(s)) <= s.unoriented.len()
            + sim_measure(s),
    decreases sim_measure(s),
{
    if s.active.len() == 0 {
        assert(cells_core_eq(s.cells, s.cells));
    } else {
        lemma_generation_props(s);
        lemma_run_props(spec_generation(s));
        lemma_cells_core_eq_trans(spec_run(s).cells, spec_generation(s).cells, s.cells);
    }
}

/// Advancing a list with one more beam at its end advances the list, then
/// the extra beam.
proof fn lemma_advance_all_snoc(s: SimState, lasers: Seq<ActiveLaser>, x: ActiveLaser)
    ensures
        spec_advance_all(s, lasers.push(x)) == spec_advance_one(spec_advance_all(s, lasers), x),
    decreases lasers.len(),
{
    if lasers.len() == 0 {
        assert(lasers.push(x)[0] == x);
        assert(lasers.push(x).drop_first() =~= Seq::<ActiveLaser>::empty());
        assert(spec_advance_all(s, lasers.push(x)) == spec_advance_all(
            spec_advance_one(s, x),
            Seq::<ActiveLaser>::empty(),
        ));
        assert(spec_advance_all(spec_advance_one(s, x), Seq::<ActiveLaser>::empty())
            == spec_advance_one(s, x));
        assert(spec_advance_all(s, lasers) == s);
    } else {
        assert(lasers.push(x)[0] == lasers[0]);
        assert(lasers.push(x).drop_first() =~= lasers.drop_first().push(x));
        assert(spec_advance_all(s, lasers.push(x)) == spec_advance_all(
            spec_advance_one(s, lasers[0]),
            lasers.drop_first().push(x),
        ));
        lemma_advance_all_snoc(spec_advance_one(s, lasers[0]), lasers.drop_first(), x);
        assert(spec_advance_all(s, lasers) == spec_advance_all(
            spec_advance_one(s, lasers[0]),
            lasers.drop_first(),
        ));
    }
}

/// A copy of a beam-front vector; beam fronts are plain values.
fn copy_lasers(v: &Vec<ActiveLaser>) -> (r: Vec<ActiveLaser>)
    ensures
        r@ == v@,
{
    let r = v.clone();
    proof {
        assert forall|i: int| 0 <= i < r@.len() implies r@[i] == v@[i] by {
            assert(cloned::<ActiveLaser>(v@[i], r@[i]));
        }
        assert(r@ =~= v@);
    }
    r
}

/// The checker: a board under simulation, the live beam fronts, the visited
/// table (flattened, entry `4 * cell + direction`), the cells where a beam
/// paused on an unrotated piece, and whether every beam stayed on the board.
#[derive(Clone, Debug)]
pub struct Checker {
    pub grid: SolverNode,
    pub active_lasers: Vec<ActiveLaser>,
    pub laser_visited: Vec<bool>,
    pub unoriented_occupied_cells: Vec<usize>,
    pub all_lasers_remain_on_board: bool,
}

impl Checker {
    /// The simulation state this checker currently holds.
    pub open spec fn sim_state(self) -> SimState {
        SimState {
            cells: self.grid.cells@,
            visited: self.laser_visited@,
            active: self.active_lasers@,
            on_board: self.all_lasers_remain_on_board,
            unoriented: self.unoriented_occupied_cells@,
        }
    }

    /// Wraps a board in a pristine checker: nothing visited, no beam live.
    pub fn from_solver_node(solver_node: SolverNode) -> (r: Checker)
        ensures
            r.sim_state() == fresh_state(solver_node.cells@),
            r.grid.cells@ == solver_node.cells@,
            r.grid.tokens_to_be_added@ == solver_node.tokens_to_be_added@,
            r.grid.tokens_to_be_added_shuffled@ == solver_node.tokens_to_be_added_shuffled@,
            r.grid.targets == solver_node.targets,
    {
        let laser_visited: Vec<bool> = vec![false; 100];
        proof {
            assert forall|k: int| 0 <= k < laser_visited@.len() implies !(
            #[trigger] laser_visited@[k]) by {
                assert(cloned::<bool>(false, laser_visited@[k]));
            }
        }
        let r = Checker {
            grid: solver_node,
            active_lasers: Vec::new(),
            laser_visited,
            unoriented_occupied_cells: Vec::new(),
            all_lasers_remain_on_board: true,
        };
        proof {
            assert(r.sim_state() =~= fresh_state(r.grid.cells@));
        }
        r
    }

    /// Seeds the simulation: the first laser piece emits one beam in its
    /// own direction.
    fn initialize(&mut self)
        requires
            sim_inv(old(self).sim_state()),
            first_laser(old(self).grid.cells@) matches Some(i) ==> old(self).grid.cells@[i]
                ->0.orientation is Some,
        ensures
            final(self).sim_state() == spec_initialize(old(self).sim_state()),
            sim_inv(final(self).sim_state()),
            final(self).grid.tokens_to_be_added@ == old(self).grid.tokens_to_be_added@,
            final(self).grid.tokens_to_be_added_shuffled@ == old(
                self,
            ).grid.tokens_to_be_added_shuffled@,
            final(self).grid.targets == old(self).grid.targets,
    {
        proof {
            lemma_first_laser_holds_laser(self.grid.cells@);
        }
        match self.grid.laser_position() {
            None => {
                proof {
                    assert(self.sim_state() =~= spec_initialize(old(self).sim_state()));
                }
            },
            Some(i) => {
                let token = match self.grid.cells[i] {
                    Some(t) => t,
                    None => unreached(),
                };
                let dir = match token.orientation {
                    Some(o) => o,
                    None => unreached(),
                };
                let vi = 4 * i + dir.to_index();
                self.laser_visited.set(vi, true);
                self.active_lasers.push(ActiveLaser { cell_index: i, orientation: dir });
                proof {
                    assert(self.sim_state() =~= spec_initialize(old(self).sim_state()));
                }
            },
        }
    }

    /// Absorbs one interaction outcome produced at `cell`.
    fn absorb_result(&mut self, cell: usize, r: LaserTokenInteractionResult)
        requires
            sim_inv(old(self).sim_state()),
            cell < 25,
        ensures
            final(self).sim_state() == spec_absorb_result(old(self).sim_state(), cell as int, r),
            sim_inv(final(self).sim_state()),
            final(self).grid.cells@ == old(self).grid.cells@,
            final(self).grid.tokens_to_be_added@ == old(self).grid.tokens_to_be_added@,
            final(self).grid.tokens_to_be_added_shuffled@ == old(
                self,
            ).grid.tokens_to_be_added_shuffled@,
            final(self).grid.targets == old(self).grid.targets,
    {
        proof {
            lemma_absorb_props(self.sim_state(), cell as int, r);
        }
        match r {
            LaserTokenInteractionResult::OutboundLaser(d) => {
                let vi = 4 * cell + d.to_index();
                if !self.laser_visited[vi] {
                    self.laser_visited.set(vi, true);
                    self.active_lasers.push(ActiveLaser { cell_index: cell, orientation: d });
                }
                proof {
                    assert(self.sim_state() =~= spec_absorb_result(
                        old(self).sim_state(),
                        cell as int,
                        r,
                    ));
                }
            },
            LaserTokenInteractionResult::NoOutboundLaser { valid } => {
                if !valid {
                    self.all_lasers_remain_on_board = false;
                }
                proof {
                    assert(self.sim_state() =~= spec_absorb_result(
                        old(self).sim_state(),
                        cell as int,
                        r,
                    ));
                }
            },
        }
    }

    /// Advances one beam front by a single step.
    fn advance_one(&mut self, laser: ActiveLaser)
        requires
            sim_inv(old(self).sim_state()),
            laser.cell_index < 25,
        ensures
            final(self).sim_state() == spec_advance_one(old(self).sim_state(), laser),
            sim_inv(final(self).sim_state()),
            final(self).grid.tokens_to_be_added@ == old(self).grid.tokens_to_be_added@,
            final(self).grid.tokens_to_be_added_shuffled@ == old(
                self,
            ).grid.tokens_to_be_added_shuffled@,
            final(self).grid.targets == old(self).grid.targets,
    {
        proof {
            lemma_advance_one_props(self.sim_state(), laser);
        }
        match laser.next_position() {
            None => {
                self.all_lasers_remain_on_board = false;
                proof {
                    assert(self.sim_state() =~= spec_advance_one(old(self).sim_state(), laser));
                }
            },
            Some(next) => {
                match self.grid.cells[next] {
                    None => {
                        let vi = 4 * next + laser.orientation.to_index();
                        if !self.laser_visited[vi] {
                            self.laser_visited.set(vi, true);
                            self.active_lasers.push(
                                ActiveLaser { cell_index: next, orientation: laser.orientation },
                            );
                        }
                        proof {
                            assert(self.sim_state() =~= spec_advance_one(
                                old(self).sim_state(),
                                laser,
                            ));
                        }
                    },
                    Some(token) => {
                        if token.orientation.is_none() {
                            self.unoriented_occupied_cells.push(next);
                            proof {
                                assert(self.sim_state() =~= spec_advance_one(
                                    old(self).sim_state(),
                                    laser,
                                ));
                            }
                        } else {
                            let mut t = token;
                            let rs = t.outbound_lasers_given_inbound_laser_direction(
                                &laser.orientation,
                            );
                            self.grid.cells.set(next, Some(t));
                            proof {
                                assert(sim_inv(self.sim_state()));
                            }
                            self.absorb_result(next, rs.0);
                            self.absorb_result(next, rs.1);
                            proof {
                                assert(self.sim_state() =~= spec_advance_one(
                                    old(self).sim_state(),
                                    laser,
                                ));
                            }
                        }
                    },
                }
            },
        }
    }

    /// Marches every beam until none remains.  The result is exactly
    /// [`spec_run`] of the seeded state; the visited table bounds the work,
    /// so the march always terminates.
    pub fn check(self) -> (r: Checker)
        requires
            sim_inv(self.sim_state()),
            first_laser(self.grid.cells@) matches Some(i) ==> self.grid.cells@[i]
                ->0.orientation is Some,
        ensures
            r.sim_state() == spec_run(spec_initialize(self.sim_state())),
            sim_inv(r.sim_state()),
            r.grid.tokens_to_be_added@ == self.grid.tokens_to_be_added@,
            r.grid.tokens_to_be_added_shuffled@ == self.grid.tokens_to_be_added_shuffled@,
            r.grid.targets == self.grid.targets,
    {
        let mut this = self;
        this.initialize();
        let ghost s0 = this.sim_state();
        let ghost bag0 = this.grid.tokens_to_be_added@;
        let ghost shuffled0 = this.grid.tokens_to_be_added_shuffled@;
        let ghost targets0 = this.grid.targets;
        while this.active_lasers.len() > 0
            invariant
                sim_inv(this.sim_state()),
                spec_run(this.sim_state()) == spec_run(s0),
                this.grid.tokens_to_be_added@ == bag0,
                this.grid.tokens_to_be_added_shuffled@ == shuffled0,
                this.grid.targets == targets0,
            decreases sim_measure(this.sim_state()),
        {
            let ghost gstart = this.sim_state();
            let old_active = copy_lasers(&this.active_lasers);
            this.active_lasers = Vec::new();
            proof {
                assert(this.sim_state() =~= (SimState { active: Seq::empty(), ..gstart }));
            }
            let n = old_active.len();
            let mut i: usize = 0;
            while i < n
                invariant
                    n == old_active@.len(),
                    i <= n,
                    forall|k: int|
                        0 <= k < n ==> (#[trigger] old_active@[k]).cell_index < 25,
                    sim_inv(this.sim_state()),
                    this.sim_state() == spec_advance_all(
                        SimState { active: Seq::empty(), ..gstart },
                        old_active@.take(i as int),
                    ),
                    this.grid.tokens_to_be_added@ == bag0,
                    this.grid.tokens_to_be_added_shuffled@ == shuffled0,
                    this.grid.targets == targets0,
                decreases n - i,
            {
                proof {
                    assert(old_active@.take(i + 1) =~= old_active@.take(i as int).push(
                        old_active@[i as int],
                    ));
                    lemma_advance_all_snoc(
                        SimState { active: Seq::empty(), ..gstart },
                        old_active@.take(i as int),
                        old_active@[i as int],
                    );
                }
                let laser = old_active[i];
                this.advance_one(laser);
                i += 1;
            }
            proof {
                assert(old_active@.take(n as int) =~= old_active@);
                assert(this.sim_state() == spec_generation(gstart));
                lemma_generation_props(gstart);
            }
        }
        proof {
            assert(spec_run(this.sim_state()) == this.sim_state());
        }
        this
    }
}

/// Every placed token has its rotation set.
pub open spec fn cells_all_oriented(cells: Seq<Option<Token>>) -> bool {
    forall|i: int|
        0 <= i < cells.len() ==> ((#[trigger] cells[i]) matches Some(t)
            ==> t.orientation is Some)
}

/// No token is lit before its rotation is set: beams only interact with
/// rotated pieces.
pub open spec fn cells_unlit_unoriented(cells: Seq<Option<Token>>) -> bool {
    forall|i: int|
        0 <= i < cells.len() ==> ((#[trigger] cells[i]) matches Some(t) ==> (t.orientation is None
            ==> !t.lit))
}

/// What simulating a board from scratch establishes when the board is a
/// solution: exactly `targets` target lights on, every must-light target
/// and every touched piece lit, and no beam ever left the board or hit a
/// side a piece cannot accept.
pub open spec fn spec_cells_solved(cells: Seq<Option<Token>>, targets: u8) -> bool {
    let fin = spec_run(spec_initialize(fresh_state(cells)));
    &&& targets as int == crate::solver_node::spec_count_lit_targets(fin.cells)
    &&& crate::solver_node::spec_all_required_targets_lit(fin.cells)
    &&& crate::solver_node::spec_all_tokens_lit(fin.cells)
    &&& fin.on_board
}

/// Appending one cell to a board prefix extends its lit-target count.
pub proof fn lemma_count_lit_targets_take(cells: Seq<Option<Token>>, i: int)
    requires
        0 <= i < cells.len(),
    ensures
        crate::solver_node::spec_count_lit_targets(cells.take(i + 1))
            == crate::solver_node::spec_count_lit_targets(cells.take(i)) + if cells[i] matches Some(
            t,
        ) && t.target_lit == Some(true) {
            1int
        } else {
            0int
        },
        crate::solver_node::spec_count_lit_targets(cells.take(i)) >= 0,
{
    assert(cells.take(i + 1).drop_last() =~= cells.take(i));
    assert(cells.take(i + 1).last() == cells[i]);
    lemma_count_lit_targets_nonneg(cells.take(i));
}

proof fn lemma_count_lit_targets_nonneg(cells: Seq<Option<Token>>)
    ensures
        crate::solver_node::spec_count_lit_targets(cells) >= 0,
        crate::solver_node::spec_count_lit_targets(cells) <= cells.len(),
    decreases cells.len(),
{
    if cells.len() > 0 {
        lemma_count_lit_targets_nonneg(cells.drop_last());
    }
}

impl Checker {
    /// Whether any beam front is still live.
    pub(crate) fn has_active_lasers(&self) -> (r: bool)
        ensures
            r == (self.active_lasers@.len() > 0),
    {
        self.active_lasers.len() > 0
    }

    /// Whether the board still owes piece placements.
    pub fn remaining_tokens_to_be_added(&self) -> (r: bool)
        ensures
            r == (self.grid.tokens_to_be_added@.len() > 0
                || self.grid.tokens_to_be_added_shuffled@.len() > 0),
    {
        self.grid.tokens_to_be_added.len() > 0 || self.grid.tokens_to_be_added_shuffled.len() > 0
    }

    /// Number of target mirrors whose target light is on.
    pub(crate) fn count_lit_targets(&self) -> (r: u8)
        requires
            self.grid.cells@.len() == 25,
        ensures
            r as int == crate::solver_node::spec_count_lit_targets(self.grid.cells@),
    {
        let n = self.grid.cells.len();
        let mut count: u8 = 0;
        let mut i: usize = 0;
        while i < n
            invariant
                n == self.grid.cells@.len(),
                n == 25,
                i <= n,
                count as int == crate::solver_node::spec_count_lit_targets(
                    self.grid.cells@.take(i as int),
                ),
                count <= i,
            decreases n - i,
        {
            proof {
                lemma_count_lit_targets_take(self.grid.cells@, i as int);
            }
            match self.grid.cells[i] {
                Some(t) => {
                    let lit = match t.target_lit {
                        Some(b) => b,
                        None => false,
                    };
                    if lit {
                        count += 1;
                    }
                },
                None => {},
            }
            i += 1;
        }
        proof {
            assert(self.grid.cells@.take(n as int) =~= self.grid.cells@);
        }
        count
    }

    /// Whether every token that must be lit has its target light on.
    pub(crate) fn all_required_targets_lit(&self) -> (r: bool)
        requires
            cells_wf(self.grid.cells@),
        ensures
            r == crate::solver_node::spec_all_required_targets_lit(self.grid.cells@),
    {
        let n = self.grid.cells.len();
        let mut i: usize = 0;
        while i < n
            invariant
                n == self.grid.cells@.len(),
                cells_wf(self.grid.cells@),
                i <= n,
                forall|j: int|
                    0 <= j < i ==> ((#[trigger] self.grid.cells@[j]) matches Some(t) ==> (
                    t.must_light ==> t.target_lit == Some(true))),
            decreases n - i,
        {
            match self.grid.cells[i] {
                Some(t) => {
                    if t.must_light {
                        let lit = match t.target_lit {
                            Some(b) => b,
                            None => false,
                        };
                        if !lit {
                            return false;
                        }
                    }
                },
                None => {},
            }
            i += 1;
        }
        true
    }

    /// Whether every placed token is lit.
    pub(crate) fn all_tokens_lit(&self) -> (r: bool)
        ensures
            r == crate::solver_node::spec_all_tokens_lit(self.grid.cells@),
    {
        let n = self.grid.cells.len();
        let mut i: usize = 0;
        while i < n
            invariant
                n == self.grid.cells@.len(),
                i <= n,
                forall|j: int|
                    0 <= j < i ==> ((#[trigger] self.grid.cells@[j]) matches Some(t) ==> t.lit),
            decreases n - i,
        {
            match self.grid.cells[i] {
                Some(t) => {
                    if !t.lit {
                        return false;
                    }
                },
                None => {},
            }
            i += 1;
        }
        true
    }

    /// Whether the simulated board is a solution: exactly the required
    /// number of target lights on, every must-light target and every
    /// placed piece lit, all beams stayed on the board, and no piece left
    /// to place.
    pub fn solved(&self) -> (r: bool)
        requires
            cells_wf(self.grid.cells@),
        ensures
            r == ({
                &&& self.grid.targets as int == crate::solver_node::spec_count_lit_targets(
                    self.grid.cells@,
                )
                &&& crate::solver_node::spec_all_required_targets_lit(self.grid.cells@)
                &&& crate::solver_node::spec_all_tokens_lit(self.grid.cells@)
                &&& self.all_lasers_remain_on_board
                &&& self.grid.tokens_to_be_added@.len() == 0
                &&& self.grid.tokens_to_be_added_shuffled@.len() == 0
            }),
    {
        self.grid.targets == self.count_lit_targets() && self.all_required_targets_lit()
            && self.all_tokens_lit() && self.all_lasers_remain_on_board
            && !self.remaining_tokens_to_be_added()
    }

    /// The cells some beam has left in some direction.
    pub(crate) fn cells_with_active_laser(&self) -> (r: Vec<usize>)
        requires
            self.laser_visited@.len() == 100,
        ensures
            forall|k: int| 0 <= k < r@.len() ==> #[trigger] r@[k] < 25,
            forall|c: usize|
                #[trigger] r@.contains(c) <==> (c < 25 && cell_visited_any(self.laser_visited@, c as int)),
            forall|k1: int, k2: int| 0 <= k1 < k2 < r@.len() ==> #[trigger] r@[k1] < #[trigger] r@[k2],
    {
        let mut result: Vec<usize> = Vec::new();
        let mut idx: usize = 0;
        while idx < 25
            invariant
                self.laser_visited@.len() == 100,
                idx <= 25,
                forall|k: int| 0 <= k < result@.len() ==> #[trigger] result@[k] < idx,
                forall|c: usize|
                    #[trigger] result@.contains(c) <==> (c < idx && cell_visited_any(
                        self.laser_visited@,
                        c as int,
                    )),
                forall|k1: int, k2: int|
                    0 <= k1 < k2 < result@.len() ==> #[trigger] result@[k1] < #[trigger] result@[k2],
            decreases 25 - idx,
        {
            let hit = self.laser_visited[4 * idx] || self.laser_visited[4 * idx + 1]
                || self.laser_visited[4 * idx + 2] || self.laser_visited[4 * idx + 3];
            if hit {
                let ghost before = result@;
                result.push(idx);
                proof {
                    lemma_contains_push(before, idx);
                }
            } else {
                proof {
                    assert forall|c: usize| #[trigger] result@.contains(c) <==> (c < idx + 1
                        && cell_visited_any(self.laser_visited@, c as int)) by {}
                }
            }
            idx += 1;
        }
        result
    }

    /// The cells some beam has visited that hold no token.
    pub(crate) fn empty_cells_with_active_laser(&self) -> (r: Vec<usize>)
        requires
            self.laser_visited@.len() == 100,
            self.grid.cells@.len() == 25,
        ensures
            forall|k: int| 0 <= k < r@.len() ==> #[trigger] r@[k] < 25,
            forall|c: usize|
                #[trigger] r@.contains(c) <==> (c < 25 && self.grid.cells@[c as int] is None
                    && cell_visited_any(self.laser_visited@, c as int)),
            forall|k1: int, k2: int| 0 <= k1 < k2 < r@.len() ==> #[trigger] r@[k1] < #[trigger] r@[k2],
    {
        let mut result: Vec<usize> = Vec::new();
        let mut idx: usize = 0;
        while idx < 25
            invariant
                self.laser_visited@.len() == 100,
                self.grid.cells@.len() == 25,
                idx <= 25,
                forall|k: int| 0 <= k < result@.len() ==> #[trigger] result@[k] < idx,
                forall|c: usize|
                    #[trigger] result@.contains(c) <==> (c < idx && self.grid.cells@[c as int] is None
                        && cell_visited_any(self.laser_visited@, c as int)),
                forall|k1: int, k2: int|
                    0 <= k1 < k2 < result@.len() ==> #[trigger] result@[k1] < #[trigger] result@[k2],
            decreases 25 - idx,
        {
            let empty = match self.grid.cells[idx] {
                None => true,
                Some(_) => false,
            };
            let hit = self.laser_visited[4 * idx] || self.laser_visited[4 * idx + 1]
                || self.laser_visited[4 * idx + 2] || self.laser_visited[4 * idx + 3];
            if empty && hit {
                let ghost before = result@;
                result.push(idx);
                proof {
                    lemma_contains_push(before, idx);
                }
            }
            idx += 1;
        }
        result
    }
}

/// Seeding preserves state well-formedness and leaves the board alone.
proof fn lemma_initialize_props(s: SimState)
    requires
        sim_inv(s),
    ensures
        sim_inv(spec_initialize(s)),
        spec_initialize(s).cells == s.cells,
        spec_initialize(s).unoriented == s.unoriented,
{
    crate::solver_node::lemma_first_laser_holds_laser(s.cells);
}

/// Resetting keeps the placement: only lit state changes, well-formedness
/// is preserved, and the result is construction-fresh.
proof fn lemma_reset_cells_props(cells: Seq<Option<Token>>)
    ensures
        crate::solver_node::reset_cells(cells).len() == cells.len(),
        cells_core_eq(crate::solver_node::reset_cells(cells), cells),
        crate::solver_node::cells_pristine(crate::solver_node::reset_cells(cells)),
        crate::solver_node::cells_tokens_wf(cells) ==> crate::solver_node::cells_tokens_wf(
            crate::solver_node::reset_cells(cells),
        ),
{
}

/// Boards with the same placement reset to the same board.
proof fn lemma_reset_cells_of_core_eq(a: Seq<Option<Token>>, b: Seq<Option<Token>>)
    requires
        cells_core_eq(a, b),
        crate::solver_node::cells_tokens_wf(a),
        crate::solver_node::cells_tokens_wf(b),
    ensures
        crate::solver_node::reset_cells(a) =~= crate::solver_node::reset_cells(b),
{
    assert forall|i: int|
        0 <= i < a.len() implies crate::solver_node::reset_cells(a)[i]
        == crate::solver_node::reset_cells(b)[i] by {
        assert(a[i] is Some <==> b[i] is Some);
        if a[i] is Some {
            assert(token_core(a[i]->0) == token_core(b[i]->0));
            assert(token_wf(a[i]->0));
            assert(token_wf(b[i]->0));
        }
    }
}

/// A construction-fresh board resets to itself.
proof fn lemma_reset_cells_pristine_id(cells: Seq<Option<Token>>)
    requires
        crate::solver_node::cells_pristine(cells),
    ensures
        crate::solver_node::reset_cells(cells) =~= cells,
{
    assert forall|i: int|
        0 <= i < cells.len() implies crate::solver_node::reset_cells(cells)[i] == cells[i] by {
        if cells[i] is Some {
            assert(crate::token::token_pristine(cells[i]->0));
        }
    }
}

/// On a construction-fresh board with its single laser rotated, no token
/// is lit before its rotation is set.
proof fn lemma_pristine_unlit_unoriented(cells: Seq<Option<Token>>)
    requires
        crate::solver_node::cells_tokens_wf(cells),
        crate::solver_node::cells_pristine(cells),
        crate::solver_node::cells_count_type(cells, crate::token::TokenType::Laser) <= 1,
        first_laser(cells) matches Some(i) ==> cells[i]->0.orientation is Some,
    ensures
        cells_unlit_unoriented(cells),
{
    crate::solver_node::lemma_first_laser_none(cells);
    crate::solver_node::lemma_first_laser_holds_laser(cells);
    crate::solver_node::lemma_cells_count_type_unique(cells, crate::token::TokenType::Laser);
    assert forall|i: int|
        0 <= i < cells.len() implies ((#[trigger] cells[i]) matches Some(t)
        ==> (t.orientation is None ==> !t.lit)) by {
        if cells[i] is Some && cells[i]->0.orientation is None {
            let u = cells[i]->0;
            assert(token_wf(u));
            assert(crate::token::token_pristine(u));
            assert(u.type_ != crate::token::TokenType::CellBlocker);
            if u.type_ == crate::token::TokenType::Laser {
                assert(first_laser(cells) is Some);
                let f = first_laser(cells)->0;
                assert(i == f);
                assert(false);
            }
        }
    }
}

impl Checker {
    /// The children of a board the simulation did not certify: rotations
    /// for each piece the beam paused on, or — once every reached piece is
    /// rotated — the next ordered piece placed on each empty cell the beam
    /// visits (innermost cells first).  No children when no piece is left:
    /// the board is a dead leaf.
    pub(crate) fn generate_branches_after_check(&mut self) -> (r: Vec<SolverNode>)
        requires
            old(self).grid.inv(),
            old(self).laser_visited@.len() == 100,
            old(self).unoriented_occupied_cells@.len() <= 101,
            forall|k: int|
                0 <= k < old(self).unoriented_occupied_cells@.len() ==> {
                    let c = (#[trigger] old(self).unoriented_occupied_cells@[k]) as int;
                    &&& c < 25
                    &&& old(self).grid.cells@[c] is Some
                    &&& old(self).grid.cells@[c]->0.orientation is None
                },
        ensures
            forall|k: int|
                0 <= k < r@.len() ==> crate::solver_node::branch_of(
                    #[trigger] r@[k],
                    old(self).grid,
                ),
            forall|k: int|
                0 <= k < r@.len() ==> crate::solver_node::node_weight(#[trigger] r@[k])
                    < crate::solver_node::node_weight(old(self).grid),
            r@.len() <= 429,
            old(self).unoriented_occupied_cells@.len() > 0 ==> ({
                let g = old(self).grid;
                let paused = old(self).unoriented_occupied_cells@;
                &&& forall|j: int|
                    0 <= j < r@.len() ==> rotation_sound(#[trigger] r@[j], g, paused)
                &&& forall|i: int, k: int|
                    (0 <= i < paused.len() && 0 <= k < spec_allowed_orientation_indices(
                        g.cells@,
                        g.cells@[paused[i] as int]->0.type_,
                        paused[i] as int,
                    ).len()) ==> #[trigger] rotation_covered(r@, g, paused[i] as int, k)
            }),
            (old(self).unoriented_occupied_cells@.len() == 0
                && old(self).grid.tokens_to_be_added_shuffled@.len() > 0) ==> ({
                let g = old(self).grid;
                let vis = old(self).laser_visited@;
                &&& forall|j: int|
                    0 <= j < r@.len() ==> placement_sound(#[trigger] r@[j], g, vis)
                &&& forall|c: int|
                    (0 <= c < 25 && g.cells@[c] is None && #[trigger] cell_visited_any(vis, c))
                        ==> placement_covered(r@, g, c)
            }),
            (old(self).unoriented_occupied_cells@.len() == 0
                && old(self).grid.tokens_to_be_added_shuffled@.len() == 0) ==> r@.len() == 0,
    {
        let ghost parent = self.grid;
        if self.unoriented_occupied_cells.len() > 0 {
            let mut result: Vec<SolverNode> = Vec::new();
            let n = self.unoriented_occupied_cells.len();
            let mut i: usize = 0;
            while i < n
                invariant
                    n == self.unoriented_occupied_cells@.len(),
                    n <= 101,
                    i <= n,
                    self.grid == parent,
                    parent.inv(),
                    self.unoriented_occupied_cells@ == old(self).unoriented_occupied_cells@,
                    result@.len() <= 4 * i,
                    forall|k: int|
                        0 <= k < self.unoriented_occupied_cells@.len() ==> {
                            let c = (#[trigger] self.unoriented_occupied_cells@[k]) as int;
                            &&& c < 25
                            &&& self.grid.cells@[c] is Some
                            &&& self.grid.cells@[c]->0.orientation is None
                        },
                    forall|j: int|
                        0 <= j < result@.len() ==> crate::solver_node::branch_of(
                            #[trigger] result@[j],
                            parent,
                        ),
                    forall|j: int|
                        0 <= j < result@.len() ==> crate::solver_node::node_weight(
                            #[trigger] result@[j],
                        ) < crate::solver_node::node_weight(parent),
                    forall|j: int|
                        0 <= j < result@.len() ==> rotation_sound(
                            #[trigger] result@[j],
                            parent,
                            self.unoriented_occupied_cells@,
                        ),
                    forall|ii: int, k: int|
                        (0 <= ii < i && 0 <= k < spec_allowed_orientation_indices(
                            parent.cells@,
                            parent.cells@[self.unoriented_occupied_cells@[ii] as int]->0.type_,
                            self.unoriented_occupied_cells@[ii] as int,
                        ).len()) ==> #[trigger] rotation_covered(
                            result@,
                            parent,
                            self.unoriented_occupied_cells@[ii] as int,
                            k,
                        ),
                decreases n - i,
            {
                let c = self.unoriented_occupied_cells[i];
                let mut children = self.grid.generate_orientation_branches_at_cell(c);
                let ghost children0 = children@;
                let ghost result_before = result@;
                result.append(&mut children);
                proof {
                    assert forall|j: int| 0 <= j < result@.len() implies
                        crate::solver_node::branch_of(#[trigger] result@[j], parent)
                        && crate::solver_node::node_weight(result@[j])
                        < crate::solver_node::node_weight(parent) by {
                        if j >= result_before.len() {
                            assert(crate::solver_node::branch_of(result@[j], self.grid));
                            assert(crate::solver_node::node_weight(result@[j])
                                < crate::solver_node::node_weight(self.grid));
                        }
                    }
                    assert forall|j: int| 0 <= j < result@.len() implies rotation_sound(
                        #[trigger] result@[j],
                        parent,
                        self.unoriented_occupied_cells@,
                    ) by {
                        if j < result_before.len() {
                            assert(result@[j] == result_before[j]);
                            assert(rotation_sound(
                                result_before[j],
                                parent,
                                self.unoriented_occupied_cells@,
                            ));
                        } else {
                            let k = j - result_before.len();
                            assert(result@[j] == children0[k]);
                            assert(rotation_child(result@[j], parent, c as int, k));
                            assert(self.unoriented_occupied_cells@[i as int] == c);
                            assert(rotation_child(
                                result@[j],
                                parent,
                                self.unoriented_occupied_cells@[i as int] as int,
                                k,
                            ));
                            assert(rotation_sound(
                                result@[j],
                                parent,
                                self.unoriented_occupied_cells@,
                            ));
                        }
                    }
                    assert forall|ii: int, k: int|
                        (0 <= ii < i + 1 && 0 <= k < spec_allowed_orientation_indices(
                            parent.cells@,
                            parent.cells@[self.unoriented_occupied_cells@[ii] as int]->0.type_,
                            self.unoriented_occupied_cells@[ii] as int,
                        ).len()) implies #[trigger] rotation_covered(
                        result@,
                        parent,
                        self.unoriented_occupied_cells@[ii] as int,
                        k,
                    ) by {
                        if ii < i {
                            assert(rotation_covered(
                                result_before,
                                parent,
                                self.unoriented_occupied_cells@[ii] as int,
                                k,
                            ));
                            let j = choose|j: int|
                                0 <= j < result_before.len() && rotation_child(
                                    #[trigger] result_before[j],
                                    parent,
                                    self.unoriented_occupied_cells@[ii] as int,
                                    k,
                                );
                            assert(result@[j] == result_before[j]);
                            assert(rotation_child(
                                result@[j],
                                parent,
                                self.unoriented_occupied_cells@[ii] as int,
                                k,
                            ));
                        } else {
                            let j = result_before.len() + k;
                            assert(result@[j] == children0[k]);
                            assert(rotation_child(result@[j], parent, c as int, k));
                            assert(self.unoriented_occupied_cells@[ii] == c);
                            assert(0 <= j < result@.len() && rotation_child(
                                result@[j],
                                parent,
                                self.unoriented_occupied_cells@[ii] as int,
                                k,
                            ));
                        }
                    }
                }
                i += 1;
            }
            result
        } else {
            let popped = self.grid.tokens_to_be_added_shuffled.pop();
            match popped {
                None => Vec::new(),
                Some(token) => {
                    let ghost shuffled0 = parent.tokens_to_be_added_shuffled@;
                    proof {
                        assert(token == shuffled0.last());
                        assert(crate::token::token_wf(token));
                        assert(crate::token::token_pristine(token));
                        crate::solver_node::lemma_bag_count_type_zero(
                            shuffled0,
                            crate::token::TokenType::Laser,
                        );
                        crate::solver_node::lemma_bag_count_type_zero(
                            shuffled0.drop_last(),
                            crate::token::TokenType::Laser,
                        );
                        crate::solver_node::lemma_bag_count_type_zero(
                            shuffled0,
                            crate::token::TokenType::CellBlocker,
                        );
                        crate::solver_node::lemma_bag_count_type_zero(
                            shuffled0.drop_last(),
                            crate::token::TokenType::CellBlocker,
                        );
                        assert(forall|j: int|
                            0 <= j < shuffled0.len() - 1 ==> shuffled0.drop_last()[j]
                                == #[trigger] shuffled0[j]);
                        assert(token.type_ != crate::token::TokenType::Laser);
                    }
                    let empty_cells = self.empty_cells_with_active_laser();
                    let order = crate::solver_node::spiral_order_reverse();
                    let mut result: Vec<SolverNode> = Vec::new();
                    let mut k: usize = 0;
                    while k < 25
                        invariant
                            k <= 25,
                            order@.len() == 25,
                            forall|j: int| 0 <= j < order@.len() ==> #[trigger] order@[j] < 25,
                            parent.inv(),
                            shuffled0.len() > 0,
                            parent.tokens_to_be_added_shuffled@ == shuffled0,
                            self.grid.cells@ == parent.cells@,
                            self.grid.tokens_to_be_added@ == parent.tokens_to_be_added@,
                            self.grid.tokens_to_be_added_shuffled@ == shuffled0.drop_last(),
                            self.grid.targets == parent.targets,
                            token == shuffled0.last(),
                            crate::token::token_wf(token),
                            crate::token::token_pristine(token),
                            bag_wf(self.grid.tokens_to_be_added_shuffled@),
                            crate::solver_node::bag_count_type(
                                self.grid.tokens_to_be_added_shuffled@,
                                crate::token::TokenType::Laser,
                            ) == 0,
                            crate::solver_node::bag_count_type(
                                self.grid.tokens_to_be_added_shuffled@,
                                crate::token::TokenType::CellBlocker,
                            ) == 0,
                            self.laser_visited@ == old(self).laser_visited@,
                            forall|c: usize|
                                #[trigger] empty_cells@.contains(c) <==> (c < 25
                                    && self.grid.cells@[c as int] is None && cell_visited_any(
                                    self.laser_visited@,
                                    c as int,
                                )),
                            result@.len() <= k,
                            token.type_ != crate::token::TokenType::Laser,
                            forall|j: int|
                                0 <= j < result@.len() ==> placement_sound(
                                    #[trigger] result@[j],
                                    parent,
                                    self.laser_visited@,
                                ),
                            forall|kk: int|
                                0 <= kk < k ==> ((parent.cells@[#[trigger] order@[kk] as int] is None
                                    && cell_visited_any(
                                    self.laser_visited@,
                                    order@[kk] as int,
                                )) ==> placement_covered(result@, parent, order@[kk] as int)),
                            forall|j: int|
                                0 <= j < result@.len() ==> crate::solver_node::branch_of(
                                    #[trigger] result@[j],
                                    parent,
                                ),
                            forall|j: int|
                                0 <= j < result@.len() ==> crate::solver_node::node_weight(
                                    #[trigger] result@[j],
                                ) < crate::solver_node::node_weight(parent),
                        decreases 25 - k,
                    {
                        let ci = order[k];
                        if crate::solver_node::vec_contains_usize(&empty_cells, ci) {
                            let mut child = self.grid.duplicate();
                            child.cells.set(ci, Some(token));
                            proof {
                                assert(empty_cells@.contains(ci));
                                assert(parent.cells@[ci as int] is None);
                                assert(child.tokens_to_be_added@ == parent.tokens_to_be_added@);
                                assert(child.tokens_to_be_added_shuffled@
                                    == shuffled0.drop_last());
                                assert(parent.tokens_to_be_added_shuffled@ == shuffled0);
                                assert(parent.tokens_to_be_added@.len() == 0);
                                crate::solver_node::lemma_cells_pieces_update(
                                    parent.cells@,
                                    ci as int,
                                    Some(token),
                                );
                                assert(crate::solver_node::opt_pieces(parent.cells@[ci as int])
                                    =~= Multiset::empty());
                                assert(crate::solver_node::bag_pieces(shuffled0)
                                    == crate::solver_node::bag_pieces(shuffled0.drop_last()).insert(
                                    crate::token::piece_of(token),
                                ));
                                assert forall|p: (crate::token::TokenType, bool)|
                                    child.pieces().count(p) == parent.pieces().count(p) by {
                                    assert(crate::solver_node::cells_pieces(child.cells@).add(
                                        crate::solver_node::opt_pieces(parent.cells@[ci as int]),
                                    ).count(p) == crate::solver_node::cells_pieces(
                                        parent.cells@,
                                    ).add(
                                        crate::solver_node::opt_pieces(Some(token)),
                                    ).count(p));
                                    assert(crate::solver_node::bag_pieces(shuffled0).count(p)
                                        == crate::solver_node::bag_pieces(
                                        shuffled0.drop_last(),
                                    ).insert(crate::token::piece_of(token)).count(p));
                                }
                                assert(child.pieces() =~= parent.pieces());
                                crate::solver_node::lemma_node_laser_count(child);
                                crate::solver_node::lemma_node_laser_count(parent);
                                assert(cells_wf(child.cells@));
                                assert(crate::solver_node::cells_pristine(child.cells@));
                                assert(crate::solver_node::cells_extends(
                                    child.cells@,
                                    parent.cells@,
                                ));
                                assert(crate::solver_node::branch_of(child, parent));
                                crate::solver_node::lemma_unoriented_count_update(
                                    parent.cells@,
                                    ci as int,
                                    Some(token),
                                );
                                assert forall|j: int|
                                    0 <= j < parent.cells@.len() implies (((
                                #[trigger] parent.cells@[j]) matches Some(t) && t.type_
                                    == crate::token::TokenType::Laser) <==> ((
                                #[trigger] child.cells@[j]) matches Some(u) && u.type_
                                    == crate::token::TokenType::Laser)) by {}
                                crate::solver_node::lemma_first_laser_same(
                                    parent.cells@,
                                    child.cells@,
                                );
                                assert(crate::solver_node::laser_ready(child.cells@)
                                    == crate::solver_node::laser_ready(parent.cells@)) by {
                                    if first_laser(parent.cells@) is Some {
                                        let f = first_laser(parent.cells@)->0;
                                        lemma_first_laser_holds_laser(parent.cells@);
                                        assert(f != ci);
                                        assert(child.cells@[f] == parent.cells@[f]);
                                    }
                                }
                                assert(crate::solver_node::node_weight(child)
                                    < crate::solver_node::node_weight(parent));
                                assert(placement_child(child, parent, ci as int));
                                assert(cell_visited_any(self.laser_visited@, ci as int));
                            }
                            let ghost result_before_push = result@;
                            result.push(child);
                            proof {
                                assert(result@[result_before_push.len() as int] == child);
                                assert(placement_covered(result@, parent, ci as int));
                                assert forall|j: int| 0 <= j < result@.len() implies
                                    placement_sound(
                                    #[trigger] result@[j],
                                    parent,
                                    self.laser_visited@,
                                ) by {
                                    if j < result_before_push.len() {
                                        assert(result@[j] == result_before_push[j]);
                                        assert(placement_sound(
                                            result_before_push[j],
                                            parent,
                                            self.laser_visited@,
                                        ));
                                    } else {
                                        assert(result@[j] == child);
                                        assert(0 <= (ci as int) < 25
                                            && parent.cells@[ci as int] is None
                                            && cell_visited_any(self.laser_visited@, ci as int)
                                            && placement_child(result@[j], parent, ci as int));
                                        assert(placement_sound(
                                            result@[j],
                                            parent,
                                            self.laser_visited@,
                                        ));
                                    }
                                }
                                assert forall|kk: int| 0 <= kk < k implies ((parent.cells@[
                                #[trigger] order@[kk] as int] is None && cell_visited_any(
                                    self.laser_visited@,
                                    order@[kk] as int,
                                )) ==> placement_covered(result@, parent, order@[kk] as int)) by {
                                    if parent.cells@[order@[kk] as int] is None
                                        && cell_visited_any(
                                        self.laser_visited@,
                                        order@[kk] as int,
                                    ) {
                                        assert(placement_covered(
                                            result_before_push,
                                            parent,
                                            order@[kk] as int,
                                        ));
                                        let j = choose|j: int|
                                            0 <= j < result_before_push.len() && placement_child(
                                                #[trigger] result_before_push[j],
                                                parent,
                                                order@[kk] as int,
                                            );
                                        assert(result@[j] == result_before_push[j]);
                                        assert(placement_child(
                                            result@[j],
                                            parent,
                                            order@[kk] as int,
                                        ));
                                    }
                                }
                            }
                        }
                        k += 1;
                    }
                    proof {
                        assert forall|c: int|
                            (0 <= c < 25 && parent.cells@[c] is None && #[trigger] cell_visited_any(
                                old(self).laser_visited@,
                                c,
                            )) implies placement_covered(result@, parent, c) by {
                            assert(order@.contains(c as usize));
                            let kk = choose|kk: int|
                                0 <= kk < order@.len() && order@[kk] == c as usize;
                            assert(parent.cells@[order@[kk] as int] is None && cell_visited_any(
                                self.laser_visited@,
                                order@[kk] as int,
                            ));
                            assert(placement_covered(result@, parent, order@[kk] as int));
                        }
                    }
                    result
                },
            }
        }
    }

    /// Simulates the board and either certifies it as a solution or
    /// produces the next generation of boards to try.  `Ok` carries the
    /// solved board itself, with every token's lit state freshly reset.
    pub fn generate_branches(self) -> (r: Result<Vec<Option<Token>>, Vec<SolverNode>>)
        requires
            self.sim_state() == fresh_state(self.grid.cells@),
            self.grid.inv(),
            first_laser(self.grid.cells@) matches Some(i) ==> self.grid.cells@[i]
                ->0.orientation is Some,
        ensures
            r is Ok <==> (spec_cells_solved(self.grid.cells@, self.grid.targets)
                && self.grid.tokens_to_be_added@.len() == 0
                && self.grid.tokens_to_be_added_shuffled@.len() == 0),
            r matches Ok(cells) ==> ({
                &&& cells@ == self.grid.cells@
                &&& cells_all_oriented(cells@)
            }),
            r matches Err(children) ==> forall|k: int|
                0 <= k < children@.len() ==> crate::solver_node::branch_of(
                    #[trigger] children@[k],
                    self.grid,
                ),
            r matches Err(children) ==> (children@.len() <= 429 && forall|k: int|
                0 <= k < children@.len() ==> crate::solver_node::node_weight(
                    #[trigger] children@[k],
                ) < crate::solver_node::node_weight(self.grid)),
            r matches Err(children) ==> ({
                let fin = spec_run(spec_initialize(fresh_state(self.grid.cells@)));
                &&& fin.unoriented.len() > 0 ==> ({
                    &&& forall|j: int|
                        0 <= j < children@.len() ==> rotation_sound(
                            #[trigger] children@[j],
                            self.grid,
                            fin.unoriented,
                        )
                    &&& forall|i: int, k: int|
                        (0 <= i < fin.unoriented.len() && 0 <= k
                            < spec_allowed_orientation_indices(
                            self.grid.cells@,
                            self.grid.cells@[fin.unoriented[i] as int]->0.type_,
                            fin.unoriented[i] as int,
                        ).len()) ==> #[trigger] rotation_covered(
                            children@,
                            self.grid,
                            fin.unoriented[i] as int,
                            k,
                        )
                })
                &&& (fin.unoriented.len() == 0
                    && self.grid.tokens_to_be_added_shuffled@.len() > 0) ==> ({
                    &&& forall|j: int|
                        0 <= j < children@.len() ==> placement_sound(
                            #[trigger] children@[j],
                            self.grid,
                            fin.visited,
                        )
                    &&& forall|c: int|
                        (0 <= c < 25 && self.grid.cells@[c] is None && #[trigger] cell_visited_any(
                            fin.visited,
                            c,
                        )) ==> placement_covered(children@, self.grid, c)
                })
                &&& (fin.unoriented.len() == 0
                    && self.grid.tokens_to_be_added_shuffled@.len() == 0) ==> children@.len() == 0
            }),
    {
        let ghost parent = self.grid;
        let ghost cells0 = self.grid.cells@;
        let ghost s0 = spec_initialize(fresh_state(cells0));
        proof {
            assert(sim_inv(fresh_state(cells0)));
            lemma_initialize_props(fresh_state(cells0));
        }
        let mut checked = self.check();
        proof {
            lemma_run_props(s0);
        }
        let ghost fin = checked.sim_state();
        let is_solved = checked.solved();
        checked.grid.reset_tokens();
        proof {
            lemma_reset_cells_props(fin.cells);
            lemma_reset_cells_of_core_eq(fin.cells, cells0);
            lemma_reset_cells_pristine_id(cells0);
            assert(checked.grid.cells@ =~= cells0);
            crate::solver_node::lemma_cells_pieces_core_eq(checked.grid.cells@, parent.cells@);
        }
        if is_solved {
            proof {
                crate::solver_node::lemma_node_laser_count(parent);
                crate::solver_node::lemma_cells_counts(cells0);
                crate::solver_node::lemma_bag_counts(parent.tokens_to_be_added@);
                crate::solver_node::lemma_bag_counts(parent.tokens_to_be_added_shuffled@);
                assert(crate::solver_node::cells_count_type(
                    cells0,
                    crate::token::TokenType::Laser,
                ) <= 1);
                lemma_pristine_unlit_unoriented(cells0);
                assert(cells_unlit_unoriented(fin.cells));
                assert forall|i: int|
                    0 <= i < cells0.len() implies ((#[trigger] cells0[i]) matches Some(t)
                    ==> t.orientation is Some) by {
                    if cells0[i] is Some {
                        assert(fin.cells[i] is Some);
                        assert(fin.cells[i]->0.lit);
                        assert(fin.cells[i]->0.orientation is Some);
                        assert(token_core(fin.cells[i]->0) == token_core(cells0[i]->0));
                    }
                }
            }
            Result::Ok(checked.grid.clone_cells())
        } else {
            proof {
                lemma_count_unvisited_le(s0.visited);
                assert(fin.unoriented.len() <= 101);
                assert(crate::solver_node::node_weight(checked.grid)
                    == crate::solver_node::node_weight(parent));
            }
            let ghost checked_grid = checked.grid;
            let ghost vis0 = checked.laser_visited@;
            let ghost paused0 = checked.unoriented_occupied_cells@;
            let children = checked.generate_branches_after_check();
            proof {
                assert(vis0 == fin.visited);
                assert(paused0 == fin.unoriented);
                assert forall|k: int| 0 <= k < children@.len() implies
                    crate::solver_node::branch_of(#[trigger] children@[k], parent)
                    && crate::solver_node::node_weight(children@[k])
                    < crate::solver_node::node_weight(parent) by {
                }
                crate::solver_node::lemma_shape_preds_view_eq(checked_grid, parent);
                assert(checked_grid.cells@ == parent.cells@);
                if fin.unoriented.len() > 0 {
                    assert forall|j: int| 0 <= j < children@.len() implies rotation_sound(
                        #[trigger] children@[j],
                        parent,
                        fin.unoriented,
                    ) by {
                        assert(rotation_sound(children@[j], checked_grid, paused0));
                        assert(rotation_sound(children@[j], checked_grid, fin.unoriented));
                    }
                    assert forall|i: int, k: int|
                        (0 <= i < fin.unoriented.len() && 0 <= k
                            < spec_allowed_orientation_indices(
                            parent.cells@,
                            parent.cells@[fin.unoriented[i] as int]->0.type_,
                            fin.unoriented[i] as int,
                        ).len()) implies #[trigger] rotation_covered(
                        children@,
                        parent,
                        fin.unoriented[i] as int,
                        k,
                    ) by {
                        assert(0 <= k < spec_allowed_orientation_indices(
                            checked_grid.cells@,
                            checked_grid.cells@[paused0[i] as int]->0.type_,
                            paused0[i] as int,
                        ).len());
                        assert(rotation_covered(
                            children@,
                            checked_grid,
                            paused0[i] as int,
                            k,
                        ));
                        assert(rotation_covered(
                            children@,
                            checked_grid,
                            fin.unoriented[i] as int,
                            k,
                        ));
                    }
                } else if checked_grid.tokens_to_be_added_shuffled@.len() > 0 {
                    assert forall|j: int| 0 <= j < children@.len() implies placement_sound(
                        #[trigger] children@[j],
                        parent,
                        fin.visited,
                    ) by {
                        assert(placement_sound(children@[j], checked_grid, vis0));
                        assert(placement_sound(children@[j], checked_grid, fin.visited));
                    }
                    assert forall|c: int|
                        (0 <= c < 25 && parent.cells@[c] is None && #[trigger] cell_visited_any(
                            fin.visited,
                            c,
                        )) implies placement_covered(children@, parent, c) by {
                        assert(checked_grid.cells@[c] is None);
                        assert(cell_visited_any(vis0, c));
                        assert(placement_covered(children@, checked_grid, c));
                    }
                }
            }
            Result::Err(children)
        }
    }
}

/// Resetting every token after a simulation and simulating afresh yields
/// exactly the outcome of the first run.  The beam march reads only the
/// placement — piece types, rotations and must-light flags — and never
/// changes it, while reset restores precisely the lit state the march
/// started from.
pub proof fn lemma_reset_resimulation(cells: Seq<Option<Token>>)
    requires
        cells_wf(cells),
        crate::solver_node::cells_pristine(cells),
    ensures
        ({
            let first = spec_run(spec_initialize(fresh_state(cells)));
            let again = spec_run(
                spec_initialize(fresh_state(crate::solver_node::reset_cells(first.cells))),
            );
            again == first
        }),
{
    let s0 = spec_initialize(fresh_state(cells));
    assert(sim_inv(fresh_state(cells)));
    lemma_initialize_props(fresh_state(cells));
    lemma_run_props(s0);
    let first = spec_run(s0);
    lemma_reset_cells_of_core_eq(first.cells, cells);
    lemma_reset_cells_pristine_id(cells);
    assert(crate::solver_node::reset_cells(first.cells) =~= cells);
}

/// Some beam has left cell `c` in some direction.
pub open spec fn cell_visited_any(visited: Seq<bool>, c: int) -> bool {
    ||| visited[4 * c]
    ||| visited[4 * c + 1]
    ||| visited[4 * c + 2]
    ||| visited[4 * c + 3]
}

/// Membership after a push: the new element, or an old member.
proof fn lemma_contains_push(s: Seq<usize>, v: usize)
    ensures
        forall|x: usize| #[trigger] s.push(v).contains(x) <==> (s.contains(x) || x == v),
{
    assert forall|x: usize| #[trigger] s.push(v).contains(x) <==> (s.contains(x) || x == v) by {
        if s.contains(x) {
            let j = choose|j: int| 0 <= j < s.len() && s[j] == x;
            assert(s.push(v)[j] == x);
        }
        if x == v {
            assert(s.push(v)[s.len() as int] == x);
        }
        if s.push(v).contains(x) {
            let j = choose|j: int| 0 <= j < s.push(v).len() && s.push(v)[j] == x;
            if j < s.len() {
                assert(s[j] == x);
            }
        }
    }
}

} // verus!
