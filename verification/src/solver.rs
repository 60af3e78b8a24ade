//! The search driver.
//!
//! A `LaserMazeSolver` validates the puzzle once, then explores the space of
//! placements and rotations depth-first over an explicit stack of board
//! nodes.  Each popped node either certifies a solution or yields children;
//! every child weighs strictly less than its parent (see
//! [`crate::solver_node::node_weight`]), so an exponential potential over
//! the stack bounds the whole search and the drive provably terminates.

use vstd::prelude::*;
use vstd::multiset::Multiset;
use vstd::string::StringExecFns;

use crate::checker::{cells_all_oriented, spec_cells_solved};
use crate::solver_node::{
    bag_count_type, bag_pieces, bag_wf, branch_of, cells_count_must_light, cells_count_type,
    cells_extends, cells_pieces, cells_pristine, cells_wf, lemma_bag_count_type_take,
    lemma_bag_count_type_zero, lemma_bag_len_sum, lemma_cells_extends_trans,
    lemma_node_laser_count, lemma_pow5_monotone, node_weight, pow5, SolverNode,
};
use crate::token::{Token, TokenType};

verus! {

/// Smallest allowed number of pieces of a type in a whole puzzle.
pub open spec fn spec_type_min(ty: TokenType) -> int {
    match ty {
        TokenType::Laser => 1,
        TokenType::TargetMirror => 1,
        _ => 0,
    }
}

/// Largest allowed number of pieces of a type in a whole puzzle.
pub open spec fn spec_type_max(ty: TokenType) -> int {
    match ty {
        TokenType::Laser => 1,
        TokenType::TargetMirror => 5,
        TokenType::BeamSplitter => 2,
        _ => 1,
    }
}

/// Pieces of a type in the whole puzzle: board and bag together.
pub open spec fn spec_type_total(
    cells: Seq<Option<Token>>,
    bag: Seq<Token>,
    ty: TokenType,
) -> int {
    cells_count_type(cells, ty) + bag_count_type(bag, ty)
}

/// Whether one piece type's total lies in its allowed range.
pub open spec fn spec_count_ok(cells: Seq<Option<Token>>, bag: Seq<Token>, ty: TokenType) -> bool {
    spec_type_min(ty) <= spec_type_total(cells, bag, ty) <= spec_type_max(ty)
}

/// What makes a puzzle definition acceptable: one to three targets, every
/// piece type within its cardinality range, no more pre-placed must-light
/// pieces than targets, and no cell blocker waiting in the bag.
pub open spec fn spec_puzzle_valid(
    cells: Seq<Option<Token>>,
    bag: Seq<Token>,
    targets: u8,
) -> bool {
    &&& 1 <= targets <= 3
    &&& forall|ty: TokenType| #[trigger] spec_count_ok(cells, bag, ty)
    &&& cells_count_must_light(cells) <= targets as int
    &&& bag_count_type(bag, TokenType::CellBlocker) == 0
}

/// The rejection message for an invalid puzzle: the first constraint that
/// fails, checked in a fixed order.
pub open spec fn spec_validation_message(
    cells: Seq<Option<Token>>,
    bag: Seq<Token>,
    targets: u8,
) -> Seq<char> {
    if !(1 <= targets <= 3) {
        "Invalid number of targets!"@
    } else if !spec_count_ok(cells, bag, TokenType::Laser) {
        "Invalid piece count for piece type Laser!"@
    } else if !spec_count_ok(cells, bag, TokenType::TargetMirror) {
        "Invalid piece count for piece type TargetMirror!"@
    } else if !spec_count_ok(cells, bag, TokenType::BeamSplitter) {
        "Invalid piece count for piece type BeamSplitter!"@
    } else if !spec_count_ok(cells, bag, TokenType::DoubleMirror) {
        "Invalid piece count for piece type DoubleMirror!"@
    } else if !spec_count_ok(cells, bag, TokenType::Checkpoint) {
        "Invalid piece count for piece type Checkpoint!"@
    } else if !spec_count_ok(cells, bag, TokenType::CellBlocker) {
        "Invalid piece count for piece type CellBlocker!"@
    } else if !(cells_count_must_light(cells) <= targets as int) {
        "Invalid number of pieces which must be lit!"@
    } else {
        "Cell Blocker included in tokens_to_be_added!"@
    }
}

/// Appending one cell to a board prefix extends its per-type count.
proof fn lemma_cells_count_type_take(cells: Seq<Option<Token>>, ty: TokenType, i: int)
    requires
        0 <= i < cells.len(),
    ensures
        cells_count_type(cells.take(i + 1), ty) == cells_count_type(cells.take(i), ty)
            + if cells[i] matches Some(t) && t.type_ == ty {
            1int
        } else {
            0int
        },
{
    assert(cells.take(i + 1).drop_last() =~= cells.take(i));
    assert(cells.take(i + 1).last() == cells[i]);
}

/// Appending one cell to a board prefix extends its must-light count.
proof fn lemma_cells_count_must_light_take(cells: Seq<Option<Token>>, i: int)
    requires
        0 <= i < cells.len(),
    ensures
        cells_count_must_light(cells.take(i + 1)) == cells_count_must_light(cells.take(i))
            + if cells[i] matches Some(t) && t.must_light {
            1int
        } else {
            0int
        },
{
    assert(cells.take(i + 1).drop_last() =~= cells.take(i));
    assert(cells.take(i + 1).last() == cells[i]);
}

/// Number of board cells holding a token of the given type.
fn count_cells_type(cells: &Vec<Option<Token>>, type_: TokenType) -> (r: usize)
    ensures
        r == cells_count_type(cells@, type_),
        r <= cells@.len(),
{
    let n = cells.len();
    let mut count: usize = 0;
    let mut i: usize = 0;
    while i < n
        invariant
            n == cells@.len(),
            i <= n,
            count == cells_count_type(cells@.take(i as int), type_),
            count <= i,
        decreases n - i,
    {
        proof {
            lemma_cells_count_type_take(cells@, type_, i as int);
        }
        match cells[i] {
            Some(t) => {
                if t.type_ == type_ {
                    count += 1;
                }
            },
            None => {},
        }
        i += 1;
    }
    proof {
        assert(cells@.take(n as int) =~= cells@);
    }
    count
}

/// Number of board cells holding a token that must be lit.
fn count_cells_must_light(cells: &Vec<Option<Token>>) -> (r: usize)
    ensures
        r == cells_count_must_light(cells@),
        r <= cells@.len(),
{
    let n = cells.len();
    let mut count: usize = 0;
    let mut i: usize = 0;
    while i < n
        invariant
            n == cells@.len(),
            i <= n,
            count == cells_count_must_light(cells@.take(i as int)),
            count <= i,
        decreases n - i,
    {
        proof {
            lemma_cells_count_must_light_take(cells@, i as int);
        }
        match cells[i] {
            Some(t) => {
                if t.must_light {
                    count += 1;
                }
            },
            None => {},
        }
        i += 1;
    }
    proof {
        assert(cells@.take(n as int) =~= cells@);
    }
    count
}

/// Number of bag tokens of the given type.
fn count_bag_type(bag: &Vec<Token>, type_: TokenType) -> (r: usize)
    ensures
        r == bag_count_type(bag@, type_),
        r <= bag@.len(),
{
    let n = bag.len();
    let mut count: usize = 0;
    let mut i: usize = 0;
    while i < n
        invariant
            n == bag@.len(),
            i <= n,
            count == bag_count_type(bag@.take(i as int), type_),
            count <= i,
        decreases n - i,
    {
        proof {
            lemma_bag_count_type_take(bag@, type_, i as int);
        }
        if bag[i].type_ == type_ {
            count += 1;
        }
        i += 1;
    }
    proof {
        assert(bag@.take(n as int) =~= bag@);
    }
    count
}

/// Whether one piece type's total lies in its allowed range.
fn count_ok(cells: &Vec<Option<Token>>, bag: &Vec<Token>, type_: TokenType) -> (r: bool)
    requires
        cells@.len() <= 25,
    ensures
        r == spec_count_ok(cells@, bag@, type_),
{
    let a = count_cells_type(cells, type_);
    let b = count_bag_type(bag, type_);
    let (min, max): (usize, usize) = match type_ {
        TokenType::Laser => (1, 1),
        TokenType::TargetMirror => (1, 5),
        TokenType::BeamSplitter => (0, 2),
        _ => (0, 1),
    };
    if b > 25 {
        proof {
            assert(spec_type_total(cells@, bag@, type_) > 25);
        }
        false
    } else {
        let total = a + b;
        min <= total && total <= max
    }
}

/// A stack node of a validated puzzle carries at most ten bagged pieces.
proof fn lemma_stack_node_bag_small(n: SolverNode, cells0: Seq<Option<Token>>, bag0: Seq<Token>)
    requires
        n.pieces() == cells_pieces(cells0).add(bag_pieces(bag0)),
        forall|ty: TokenType| #[trigger] spec_count_ok(cells0, bag0, ty),
        bag_count_type(n.tokens_to_be_added@, TokenType::CellBlocker) == 0,
    ensures
        n.tokens_to_be_added@.len() <= 10,
{
    lemma_bag_len_sum(n.tokens_to_be_added@);
    crate::solver_node::lemma_bag_counts(n.tokens_to_be_added@);
    crate::solver_node::lemma_cells_counts(cells0);
    crate::solver_node::lemma_bag_counts(bag0);
    assert forall|ty: TokenType| #[trigger] bag_count_type(n.tokens_to_be_added@, ty)
        <= spec_type_total(cells0, bag0, ty) by {
        assert(spec_count_ok(cells0, bag0, ty));
        assert(n.pieces().count((ty, false)) >= bag_pieces(n.tokens_to_be_added@).count(
            (ty, false),
        ));
        assert(n.pieces().count((ty, true)) >= bag_pieces(n.tokens_to_be_added@).count(
            (ty, true),
        ));
        assert(n.pieces().count((ty, false)) + n.pieces().count((ty, true)) == spec_type_total(
            cells0,
            bag0,
            ty,
        ));
        lemma_bag_count_type_zero(n.tokens_to_be_added@, ty);
    }
    assert(spec_count_ok(cells0, bag0, TokenType::Laser));
    assert(spec_count_ok(cells0, bag0, TokenType::TargetMirror));
    assert(spec_count_ok(cells0, bag0, TokenType::BeamSplitter));
    assert(spec_count_ok(cells0, bag0, TokenType::DoubleMirror));
    assert(spec_count_ok(cells0, bag0, TokenType::Checkpoint));
    assert(bag_count_type(n.tokens_to_be_added@, TokenType::Laser) <= 1);
    assert(bag_count_type(n.tokens_to_be_added@, TokenType::TargetMirror) <= 5);
    assert(bag_count_type(n.tokens_to_be_added@, TokenType::BeamSplitter) <= 2);
    assert(bag_count_type(n.tokens_to_be_added@, TokenType::DoubleMirror) <= 1);
    assert(bag_count_type(n.tokens_to_be_added@, TokenType::Checkpoint) <= 1);
}

/// The branching base of the search potential: strictly more than the
/// largest number of children any node can produce in a valid puzzle.
pub open spec fn phi_pow(e: nat) -> nat
    decreases e,
{
    if e == 0 {
        1
    } else {
        16000000 * phi_pow((e - 1) as nat)
    }
}

/// `phi_pow` is positive and monotone.
proof fn lemma_phi_pow_monotone(a: nat, b: nat)
    requires
        a <= b,
    ensures
        1 <= phi_pow(a) <= phi_pow(b),
    decreases b,
{
    if b > 0 {
        if a == b {
            lemma_phi_pow_monotone(0, (b - 1) as nat);
        } else {
            lemma_phi_pow_monotone(a, (b - 1) as nat);
        }
    }
}

/// The search potential of a stack of nodes: each node contributes
/// exponentially in its weight, so replacing a node by up to 15999999
/// strictly lighter children lowers the potential.
pub open spec fn stack_potential(stack: Seq<SolverNode>) -> nat
    decreases stack.len(),
{
    if stack.len() == 0 {
        0
    } else {
        stack_potential(stack.drop_last()) + phi_pow(node_weight(stack.last()))
    }
}

/// The potential of a concatenation is the sum of the potentials.
proof fn lemma_potential_append(a: Seq<SolverNode>, b: Seq<SolverNode>)
    ensures
        stack_potential(a + b) == stack_potential(a) + stack_potential(b),
    decreases b.len(),
{
    if b.len() == 0 {
        assert(a + b =~= a);
    } else {
        assert((a + b).drop_last() =~= a + b.drop_last());
        assert((a + b).last() == b.last());
        lemma_potential_append(a, b.drop_last());
    }
}

/// A batch of nodes all lighter than `m` has potential at most the batch
/// size times `phi_pow(m - 1)`.
proof fn lemma_potential_children(c: Seq<SolverNode>, m: nat)
    requires
        m >= 1,
        forall|k: int| 0 <= k < c.len() ==> node_weight(#[trigger] c[k]) < m,
    ensures
        stack_potential(c) <= c.len() * phi_pow((m - 1) as nat),
    decreases c.len(),
{
    if c.len() == 0 {
    } else {
        lemma_potential_children(c.drop_last(), m);
        lemma_phi_pow_monotone(node_weight(c.last()), (m - 1) as nat);
        assert((c.len() - 1) * phi_pow((m - 1) as nat) + phi_pow((m - 1) as nat) == c.len()
            * phi_pow((m - 1) as nat)) by (nonlinear_arith);
    }
}

/// One stack node of a running search: a well-formed board holding exactly
/// the puzzle's pieces, keeping every placement of the initial board, with
/// no blocker or stray laser in its bags.
pub open spec fn stack_node_ok(n: SolverNode, s: LaserMazeSolver) -> bool {
    &&& n.wf()
    &&& n.targets == s.targets
    &&& n.pieces() == cells_pieces(s.initial_grid_config@).add(
        bag_pieces(s.tokens_to_be_added@),
    )
    &&& cells_extends(n.cells@, s.initial_grid_config@)
    &&& bag_count_type(n.tokens_to_be_added_shuffled@, TokenType::Laser) == 0
    &&& bag_count_type(n.tokens_to_be_added_shuffled@, TokenType::CellBlocker) == 0
    &&& bag_count_type(n.tokens_to_be_added@, TokenType::CellBlocker) <= bag_count_type(
        s.tokens_to_be_added@,
        TokenType::CellBlocker,
    )
    &&& (n.tokens_to_be_added@.len() == 0 || n.tokens_to_be_added_shuffled@.len() == 0)
}

/// A stack node the search can certify immediately: its laser is placed
/// and rotated, both bags are empty, and simulating its board meets the
/// win condition.
pub open spec fn solved_leaf(n: SolverNode) -> bool {
    &&& crate::solver_node::laser_ready(n.cells@)
    &&& n.tokens_to_be_added@.len() == 0
    &&& n.tokens_to_be_added_shuffled@.len() == 0
    &&& spec_cells_solved(n.cells@, n.targets)
}

/// The search driver: the puzzle definition and the explicit stack of
/// board nodes still to explore.
pub struct LaserMazeSolver {
    pub initial_grid_config: Vec<Option<Token>>,
    pub tokens_to_be_added: Vec<Token>,
    pub stack: Vec<SolverNode>,
    pub targets: u8,
}

impl LaserMazeSolver {
    /// Well-formedness of a solver: the puzzle's tokens are structurally
    /// well formed and construction-fresh, and every stacked node is a
    /// legitimate state of this puzzle's search.
    pub open spec fn wf(self) -> bool {
        &&& cells_wf(self.initial_grid_config@)
        &&& cells_pristine(self.initial_grid_config@)
        &&& bag_wf(self.tokens_to_be_added@)
        &&& forall|k: int|
            0 <= k < self.stack@.len() ==> stack_node_ok(#[trigger] self.stack@[k], self)
    }

    /// Builds a solver for a puzzle, seeding the search with the puzzle
    /// itself.
    pub fn new(
        initial_grid_config: Vec<Option<Token>>,
        tokens_to_be_added: Vec<Token>,
        targets: u8,
    ) -> (r: LaserMazeSolver)
        requires
            cells_wf(initial_grid_config@),
            cells_pristine(initial_grid_config@),
            bag_wf(tokens_to_be_added@),
        ensures
            r.wf(),
            r.initial_grid_config@ == initial_grid_config@,
            r.tokens_to_be_added@ == tokens_to_be_added@,
            r.targets == targets,
            r.stack@.len() == 1,
            r.stack@[0].cells@ == initial_grid_config@,
            r.stack@[0].tokens_to_be_added@ == tokens_to_be_added@,
            r.stack@[0].tokens_to_be_added_shuffled@.len() == 0,
            r.stack@[0].targets == targets,
    {
        let initial_solver_node = SolverNode::new(
            crate::solver_node::copy_cells(&initial_grid_config),
            crate::solver_node::copy_tokens(&tokens_to_be_added),
            targets,
        );
        let mut stack: Vec<SolverNode> = Vec::new();
        stack.push(initial_solver_node);
        let r = LaserMazeSolver { initial_grid_config, tokens_to_be_added, targets, stack };
        proof {
            let root = r.stack@[0];
            assert(bag_pieces(root.tokens_to_be_added_shuffled@) == Multiset::<(
                TokenType,
                bool,
            )>::empty());
            assert(root.pieces() =~= cells_pieces(r.initial_grid_config@).add(
                bag_pieces(r.tokens_to_be_added@),
            ));
            assert(cells_extends(root.cells@, r.initial_grid_config@));
            assert(stack_node_ok(root, r));
        }
        r
    }

    /// Checks the puzzle definition: one to three targets, each piece
    /// type's total within its range, no more pre-placed must-light pieces
    /// than targets, no cell blocker in the bag.  Returns the first failed
    /// constraint's message, in a fixed checking order.
    fn validate(&self) -> (r: Result<(), String>)
        requires
            self.initial_grid_config@.len() <= 25,
        ensures
            r is Ok <==> spec_puzzle_valid(
                self.initial_grid_config@,
                self.tokens_to_be_added@,
                self.targets,
            ),
            r matches Err(s) ==> s@ == spec_validation_message(
                self.initial_grid_config@,
                self.tokens_to_be_added@,
                self.targets,
            ),
    {
        if self.targets == 0 || self.targets > 3 {
            return Result::Err(String::from_str("Invalid number of targets!"));
        }
        if !count_ok(&self.initial_grid_config, &self.tokens_to_be_added, TokenType::Laser) {
            return Result::Err(String::from_str("Invalid piece count for piece type Laser!"));
        }
        if !count_ok(&self.initial_grid_config, &self.tokens_to_be_added, TokenType::TargetMirror) {
            return Result::Err(
                String::from_str("Invalid piece count for piece type TargetMirror!"),
            );
        }
        if !count_ok(&self.initial_grid_config, &self.tokens_to_be_added, TokenType::BeamSplitter) {
            return Result::Err(
                String::from_str("Invalid piece count for piece type BeamSplitter!"),
            );
        }
        if !count_ok(&self.initial_grid_config, &self.tokens_to_be_added, TokenType::DoubleMirror) {
            return Result::Err(
                String::from_str("Invalid piece count for piece type DoubleMirror!"),
            );
        }
        if !count_ok(&self.initial_grid_config, &self.tokens_to_be_added, TokenType::Checkpoint) {
            return Result::Err(String::from_str("Invalid piece count for piece type Checkpoint!"));
        }
        if !count_ok(&self.initial_grid_config, &self.tokens_to_be_added, TokenType::CellBlocker) {
            return Result::Err(
                String::from_str("Invalid piece count for piece type CellBlocker!"),
            );
        }
        let must_light_count = count_cells_must_light(&self.initial_grid_config);
        if (self.targets as usize) < must_light_count {
            return Result::Err(String::from_str("Invalid number of pieces which must be lit!"));
        }
        if count_bag_type(&self.tokens_to_be_added, TokenType::CellBlocker) > 0 {
            return Result::Err(String::from_str("Cell Blocker included in tokens_to_be_added!"));
        }
        proof {
            lemma_bag_count_type_zero(self.tokens_to_be_added@, TokenType::CellBlocker);
            assert forall|ty: TokenType| #[trigger] spec_count_ok(
                self.initial_grid_config@,
                self.tokens_to_be_added@,
                ty,
            ) by {
                match ty {
                    TokenType::Laser => {},
                    TokenType::TargetMirror => {},
                    TokenType::BeamSplitter => {},
                    TokenType::DoubleMirror => {},
                    TokenType::Checkpoint => {},
                    TokenType::CellBlocker => {},
                }
            }
        }
        Result::Ok(())
    }

    /// Runs the search: `Err` rejects an invalid puzzle with the failed
    /// constraint's message; `Ok(None)` reports the search exhausted
    /// without a solution; `Ok(Some(cells))` returns a fully placed and
    /// rotated board that keeps every placement of the initial board,
    /// uses exactly the puzzle's pieces, and whose beam simulation lights
    /// exactly the required targets with every piece lit and no beam
    /// leaving the board.
    ///
    /// Success is owed whenever a solved board is already on the stack —
    /// in particular for a fully placed, rotated board that simulates to
    /// a win.  `Ok(None)` means the pruned depth-first search ran dry: the
    /// exploration tries pieces only on beam-visited cells and skips
    /// rotations that aim a constrained piece off the board, and that this
    /// pruning never discards a solvable configuration is the design's
    /// intent but not part of the verified contract.
    pub fn solve(&mut self) -> (r: Result<Option<Vec<Option<Token>>>, String>)
        requires
            old(self).wf(),
        ensures
            r is Err <==> !spec_puzzle_valid(
                old(self).initial_grid_config@,
                old(self).tokens_to_be_added@,
                old(self).targets,
            ),
            r matches Err(s) ==> s@ == spec_validation_message(
                old(self).initial_grid_config@,
                old(self).tokens_to_be_added@,
                old(self).targets,
            ),
            r matches Ok(Some(cells)) ==> ({
                &&& cells@.len() == 25
                &&& cells_wf(cells@)
                &&& cells_pristine(cells@)
                &&& cells_all_oriented(cells@)
                &&& cells_extends(cells@, old(self).initial_grid_config@)
                &&& cells_pieces(cells@) == cells_pieces(old(self).initial_grid_config@).add(
                    bag_pieces(old(self).tokens_to_be_added@),
                )
                &&& spec_cells_solved(cells@, old(self).targets)
            }),
            (spec_puzzle_valid(
                old(self).initial_grid_config@,
                old(self).tokens_to_be_added@,
                old(self).targets,
            ) && (exists|k: int|
                0 <= k < old(self).stack@.len() && solved_leaf(
                    #[trigger] old(self).stack@[k],
                ))) ==> (r matches Ok(c) && c is Some),
    {
        match self.validate() {
            Result::Err(s) => {
                return Result::Err(s);
            },
            Result::Ok(()) => {},
        }
        let ghost s0 = *self;
        loop
            invariant
                s0 == *old(self),
                self.initial_grid_config@ == s0.initial_grid_config@,
                self.tokens_to_be_added@ == s0.tokens_to_be_added@,
                self.targets == s0.targets,
                self.wf(),
                s0.wf(),
                spec_puzzle_valid(s0.initial_grid_config@, s0.tokens_to_be_added@, s0.targets),
                (exists|k: int|
                    0 <= k < s0.stack@.len() && solved_leaf(#[trigger] s0.stack@[k])) ==> (exists|
                    k: int,
                |
                    0 <= k < self.stack@.len() && solved_leaf(#[trigger] self.stack@[k])),
            decreases stack_potential(self.stack@),
        {
            let ghost pre_stack = self.stack@;
            let popped = self.stack.pop();
            match popped {
                None => {
                    proof {
                        assert(pre_stack.len() == 0);
                        assert(!(exists|k: int|
                            0 <= k < pre_stack.len() && solved_leaf(#[trigger] pre_stack[k])));
                    }
                    return Result::Ok(None);
                },
                Some(mut node) => {
                    let ghost node0 = node;
                    let ghost stack_before = self.stack@;
                    proof {
                        assert(stack_node_ok(node0, *self));
                        assert forall|k: int| 0 <= k < self.stack@.len() implies stack_node_ok(
                            #[trigger] self.stack@[k],
                            *self,
                        ) by {
                            assert(self.stack@[k] == pre_stack[k]);
                        }
                        // The popped node is a legitimate one-laser puzzle
                        // state: its piece counts are the validated totals.
                        lemma_node_laser_count(node0);
                        crate::solver_node::lemma_cells_counts(s0.initial_grid_config@);
                        crate::solver_node::lemma_bag_counts(s0.tokens_to_be_added@);
                        assert(spec_count_ok(
                            s0.initial_grid_config@,
                            s0.tokens_to_be_added@,
                            TokenType::Laser,
                        ));
                        assert(node0.laser_count() == 1);
                        lemma_bag_count_type_zero(node0.tokens_to_be_added@, TokenType::CellBlocker);
                        assert(node0.inv());
                    }
                    let branches = node.generate_branches();
                    match branches {
                        Result::Ok(cells) => {
                            proof {
                                assert(bag_pieces(node0.tokens_to_be_added@) == Multiset::<(
                                    TokenType,
                                    bool,
                                )>::empty());
                                assert(bag_pieces(node0.tokens_to_be_added_shuffled@)
                                    == Multiset::<(TokenType, bool)>::empty());
                                assert(cells_pieces(cells@) =~= node0.pieces());
                            }
                            return Result::Ok(Some(cells));
                        },
                        Result::Err(mut new_nodes) => {
                            proof {
                                let w = node_weight(node0);
                                assert(stack_potential(pre_stack) == stack_potential(stack_before)
                                    + phi_pow(w));
                                assert forall|k: int| 0 <= k < new_nodes@.len() implies
                                    stack_node_ok(#[trigger] new_nodes@[k], *self) by {
                                    assert(branch_of(new_nodes@[k], node0));
                                    lemma_cells_extends_trans(
                                        new_nodes@[k].cells@,
                                        node0.cells@,
                                        s0.initial_grid_config@,
                                    );
                                    lemma_bag_count_type_zero(
                                        new_nodes@[k].tokens_to_be_added@,
                                        TokenType::CellBlocker,
                                    );
                                }
                                lemma_potential_append(stack_before, new_nodes@);
                                lemma_phi_pow_monotone(0, w);
                                if new_nodes@.len() > 0 {
                                    assert(node_weight(new_nodes@[0]) < w);
                                    assert(w >= 1);
                                    // The batch is small: the node's bag holds
                                    // at most ten pieces under the validated
                                    // cardinalities.
                                    lemma_stack_node_bag_small(
                                        node0,
                                        s0.initial_grid_config@,
                                        s0.tokens_to_be_added@,
                                    );
                                    assert(node0.tokens_to_be_added@.len() <= 10);
                                    lemma_pow5_monotone(
                                        node0.tokens_to_be_added@.len() as nat,
                                        10,
                                    );
                                    assert(pow5(10) == 9765625) by {
                                        reveal_with_fuel(pow5, 11);
                                    }
                                    assert(new_nodes@.len() <= 9766154);
                                    lemma_potential_children(new_nodes@, w);
                                    assert(stack_potential(new_nodes@) <= new_nodes@.len()
                                        * phi_pow((w - 1) as nat));
                                    lemma_phi_pow_monotone(0, (w - 1) as nat);
                                    assert(new_nodes@.len() * phi_pow((w - 1) as nat) < 16000000
                                        * phi_pow((w - 1) as nat)) by (nonlinear_arith)
                                        requires
                                            new_nodes@.len() <= 9766154,
                                            phi_pow((w - 1) as nat) >= 1,
                                    ;
                                    assert(phi_pow(w) == 16000000 * phi_pow((w - 1) as nat));
                                    assert(stack_potential(new_nodes@) < phi_pow(w));
                                } else {
                                    assert(stack_potential(new_nodes@) == 0);
                                }
                                assert(stack_potential(stack_before + new_nodes@)
                                    < stack_potential(pre_stack));
                            }
                            let ghost stack_mid = self.stack@;
                            self.stack.append(&mut new_nodes);
                            proof {
                                assert forall|k: int| 0 <= k < self.stack@.len() implies
                                    stack_node_ok(#[trigger] self.stack@[k], *self) by {
                                    if k < stack_mid.len() {
                                        assert(self.stack@[k] == stack_mid[k]);
                                    }
                                }
                                if exists|k: int|
                                    0 <= k < pre_stack.len() && solved_leaf(
                                        #[trigger] pre_stack[k],
                                    ) {
                                    let k = choose|k: int|
                                        0 <= k < pre_stack.len() && solved_leaf(
                                            #[trigger] pre_stack[k],
                                        );
                                    if k == pre_stack.len() - 1 {
                                        // A solved leaf never reaches this
                                        // branch: it is certified as Ok.
                                        assert(solved_leaf(node0));
                                        assert(false);
                                    } else {
                                        assert(stack_mid[k] == pre_stack[k]);
                                        assert(self.stack@[k] == stack_mid[k]);
                                        assert(solved_leaf(self.stack@[k]));
                                    }
                                }
                            }
                        },
                    }
                },
            }
        }
    }
}

} // verus!
