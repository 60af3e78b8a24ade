//! A node of the search tree: a partially filled 25-cell board, the bag of
//! pieces still to be placed, and the required number of lit targets.
//!
//! Branch generation proceeds in a fixed precedence: place and rotate the
//! laser, then fix an ordering of the remaining bag, then (driven by the
//! beam simulation in [`crate::checker`]) rotate pieces the beam has reached
//! and drop the remaining pieces onto cells the beam actually visits.

use vstd::prelude::*;
use vstd::multiset::Multiset;

use crate::orientation::Orientation;
use crate::token::{piece_of, spec_reset, token_pristine, token_wf, Token, TokenType};

verus! {

/// One search node: board cells (row-major, cell 0 bottom-left), the
/// unordered bag of pieces still to add, the ordering of that bag currently
/// being tried, and the required count of lit targets.
#[derive(Clone, Debug)]
pub struct SolverNode {
    pub cells: Vec<Option<Token>>,
    pub tokens_to_be_added: Vec<Token>,
    pub tokens_to_be_added_shuffled: Vec<Token>,
    pub targets: u8,
}

/// Well-formedness of a 25-cell board: every placed token is structurally
/// well formed.
pub open spec fn cells_wf(cells: Seq<Option<Token>>) -> bool {
    &&& cells.len() == 25
    &&& forall|i: int|
        0 <= i < cells.len() ==> ((#[trigger] cells[i]) matches Some(t) ==> token_wf(t))
}

/// Every placed token is structurally well formed (any board length).
pub open spec fn cells_tokens_wf(cells: Seq<Option<Token>>) -> bool {
    forall|i: int|
        0 <= i < cells.len() ==> ((#[trigger] cells[i]) matches Some(t) ==> token_wf(t))
}

/// Every placed token carries its construction-time lit state.
pub open spec fn cells_pristine(cells: Seq<Option<Token>>) -> bool {
    forall|i: int|
        0 <= i < cells.len() ==> ((#[trigger] cells[i]) matches Some(t) ==> token_pristine(t))
}

/// Every token of a bag is well formed and carries its construction-time
/// lit state.
pub open spec fn bag_wf(ts: Seq<Token>) -> bool {
    forall|i: int|
        0 <= i < ts.len() ==> token_wf(#[trigger] ts[i]) && token_pristine(ts[i])
}

/// The board with every token's lit state restored to its construction-time
/// default.
pub open spec fn reset_cells(cells: Seq<Option<Token>>) -> Seq<Option<Token>> {
    cells.map_values(
        |c: Option<Token>|
            match c {
                Some(t) => Some(spec_reset(t)),
                None => None,
            },
    )
}

/// Number of target mirrors whose target light is on.
pub open spec fn spec_count_lit_targets(cells: Seq<Option<Token>>) -> int
    decreases cells.len(),
{
    if cells.len() == 0 {
        0
    } else {
        spec_count_lit_targets(cells.drop_last()) + if cells.last() matches Some(t)
            && t.target_lit == Some(true) {
            1int
        } else {
            0int
        }
    }
}

/// Every token that must be lit has its target light on.
pub open spec fn spec_all_required_targets_lit(cells: Seq<Option<Token>>) -> bool {
    forall|i: int|
        0 <= i < cells.len() ==> ((#[trigger] cells[i]) matches Some(t) ==> (t.must_light
            ==> t.target_lit == Some(true)))
}

/// Every placed token is lit.
pub open spec fn spec_all_tokens_lit(cells: Seq<Option<Token>>) -> bool {
    forall|i: int| 0 <= i < cells.len() ==> ((#[trigger] cells[i]) matches Some(t) ==> t.lit)
}

/// Index of the first cell from `i` upward that holds a laser piece.
pub open spec fn first_laser_from(cells: Seq<Option<Token>>, i: int) -> Option<int>
    decreases cells.len() - i,
{
    if i < 0 || i >= cells.len() {
        None
    } else if cells[i] matches Some(t) && t.type_ == TokenType::Laser {
        Some(i)
    } else {
        first_laser_from(cells, i + 1)
    }
}

/// Index of the first cell holding a laser piece, if any.
pub open spec fn first_laser(cells: Seq<Option<Token>>) -> Option<int> {
    first_laser_from(cells, 0)
}

/// A laser piece stands on the board and its rotation is set.
pub open spec fn laser_ready(cells: Seq<Option<Token>>) -> bool {
    first_laser(cells) matches Some(i) && cells[i]->0.orientation is Some
}

/// Index of the first cell from `i` upward that holds a cell blocker.
pub open spec fn first_blocker_from(cells: Seq<Option<Token>>, i: int) -> Option<int>
    decreases cells.len() - i,
{
    if i < 0 || i >= cells.len() {
        None
    } else if cells[i] matches Some(t) && t.type_ == TokenType::CellBlocker {
        Some(i)
    } else {
        first_blocker_from(cells, i + 1)
    }
}

/// Index of the first cell holding a cell blocker, if any.
pub open spec fn first_blocker(cells: Seq<Option<Token>>) -> Option<int> {
    first_blocker_from(cells, 0)
}

/// The pieces of one cell, as a multiset of (type, must-light) identities.
pub open spec fn opt_pieces(c: Option<Token>) -> Multiset<(TokenType, bool)> {
    match c {
        None => Multiset::empty(),
        Some(t) => Multiset::empty().insert(piece_of(t)),
    }
}

/// The pieces placed on a board, as a multiset of identities.
pub open spec fn cells_pieces(cells: Seq<Option<Token>>) -> Multiset<(TokenType, bool)>
    decreases cells.len(),
{
    if cells.len() == 0 {
        Multiset::empty()
    } else {
        cells_pieces(cells.drop_last()).add(opt_pieces(cells.last()))
    }
}

/// The pieces of a bag, as a multiset of identities.
pub open spec fn bag_pieces(ts: Seq<Token>) -> Multiset<(TokenType, bool)>
    decreases ts.len(),
{
    if ts.len() == 0 {
        Multiset::empty()
    } else {
        bag_pieces(ts.drop_last()).insert(piece_of(ts.last()))
    }
}

/// Number of placed tokens of the given type.
pub open spec fn cells_count_type(cells: Seq<Option<Token>>, ty: TokenType) -> int
    decreases cells.len(),
{
    if cells.len() == 0 {
        0
    } else {
        cells_count_type(cells.drop_last(), ty) + if cells.last() matches Some(t) && t.type_ == ty {
            1int
        } else {
            0int
        }
    }
}

/// Number of bag tokens of the given type.
pub open spec fn bag_count_type(ts: Seq<Token>, ty: TokenType) -> int
    decreases ts.len(),
{
    if ts.len() == 0 {
        0
    } else {
        bag_count_type(ts.drop_last(), ty) + if ts.last().type_ == ty {
            1int
        } else {
            0int
        }
    }
}

/// Number of placed tokens that must be lit.
pub open spec fn cells_count_must_light(cells: Seq<Option<Token>>) -> int
    decreases cells.len(),
{
    if cells.len() == 0 {
        0
    } else {
        cells_count_must_light(cells.drop_last()) + if cells.last() matches Some(t)
            && t.must_light {
            1int
        } else {
            0int
        }
    }
}

/// Number of bag tokens that must be lit.
pub open spec fn bag_count_must_light(ts: Seq<Token>) -> int
    decreases ts.len(),
{
    if ts.len() == 0 {
        0
    } else {
        bag_count_must_light(ts.drop_last()) + if ts.last().must_light {
            1int
        } else {
            0int
        }
    }
}

impl SolverNode {
    /// Every token of the node — placed, bagged or ordered — is well formed
    /// and carries its construction-time lit state.
    pub open spec fn wf(self) -> bool {
        &&& cells_wf(self.cells@)
        &&& cells_pristine(self.cells@)
        &&& bag_wf(self.tokens_to_be_added@)
        &&& bag_wf(self.tokens_to_be_added_shuffled@)
    }

    /// All pieces of the node, wherever they currently live.
    pub open spec fn pieces(self) -> Multiset<(TokenType, bool)> {
        cells_pieces(self.cells@).add(bag_pieces(self.tokens_to_be_added@)).add(
            bag_pieces(self.tokens_to_be_added_shuffled@),
        )
    }

    /// Number of laser pieces in the whole node.
    pub open spec fn laser_count(self) -> int {
        cells_count_type(self.cells@, TokenType::Laser) + bag_count_type(
            self.tokens_to_be_added@,
            TokenType::Laser,
        ) + bag_count_type(self.tokens_to_be_added_shuffled@, TokenType::Laser)
    }

    /// A well-formed node of a puzzle with exactly one laser piece, no cell
    /// blocker waiting to be placed, no laser in the ordered bag, and at
    /// most one of the two bags in use: the unordered bag is emptied into
    /// the ordered one when the search fixes an ordering.
    pub open spec fn inv(self) -> bool {
        &&& self.wf()
        &&& self.laser_count() == 1
        &&& bag_count_type(self.tokens_to_be_added@, TokenType::CellBlocker) == 0
        &&& bag_count_type(self.tokens_to_be_added_shuffled@, TokenType::CellBlocker) == 0
        &&& bag_count_type(self.tokens_to_be_added_shuffled@, TokenType::Laser) == 0
        &&& (self.tokens_to_be_added@.len() == 0 || self.tokens_to_be_added_shuffled@.len() == 0)
    }

    /// Builds the root node of a search.
    pub fn new(
        initial_grid_config: Vec<Option<Token>>,
        tokens_to_be_added: Vec<Token>,
        targets: u8,
    ) -> (r: SolverNode)
        ensures
            r.cells@ == initial_grid_config@,
            r.tokens_to_be_added@ == tokens_to_be_added@,
            r.tokens_to_be_added_shuffled@.len() == 0,
            r.targets == targets,
    {
        SolverNode {
            cells: initial_grid_config,
            tokens_to_be_added,
            tokens_to_be_added_shuffled: Vec::new(),
            targets,
        }
    }

    /// A copy of the board cells.
    pub fn clone_cells(&self) -> (r: Vec<Option<Token>>)
        ensures
            r@ == self.cells@,
    {
        copy_cells(&self.cells)
    }

    /// An independent copy of the whole node.
    pub(crate) fn duplicate(&self) -> (r: SolverNode)
        ensures
            r.cells@ == self.cells@,
            r.tokens_to_be_added@ == self.tokens_to_be_added@,
            r.tokens_to_be_added_shuffled@ == self.tokens_to_be_added_shuffled@,
            r.targets == self.targets,
    {
        SolverNode {
            cells: copy_cells(&self.cells),
            tokens_to_be_added: copy_tokens(&self.tokens_to_be_added),
            tokens_to_be_added_shuffled: copy_tokens(&self.tokens_to_be_added_shuffled),
            targets: self.targets,
        }
    }

    /// Restores every placed token's lit state to its construction-time
    /// default, so the board can be simulated afresh.
    pub fn reset_tokens(&mut self)
        ensures
            final(self).cells@ == reset_cells(old(self).cells@),
            final(self).tokens_to_be_added@ == old(self).tokens_to_be_added@,
            final(self).tokens_to_be_added_shuffled@ == old(self).tokens_to_be_added_shuffled@,
            final(self).targets == old(self).targets,
    {
        let n = self.cells.len();
        let mut i: usize = 0;
        while i < n
            invariant
                n == self.cells@.len(),
                i <= n,
                self.cells@.len() == old(self).cells@.len(),
                forall|j: int|
                    0 <= j < i ==> self.cells@[j] == reset_cells(old(self).cells@)[j],
                forall|j: int| i <= j < n ==> self.cells@[j] == old(self).cells@[j],
                self.tokens_to_be_added@ == old(self).tokens_to_be_added@,
                self.tokens_to_be_added_shuffled@ == old(self).tokens_to_be_added_shuffled@,
                self.targets == old(self).targets,
            decreases n - i,
        {
            match self.cells[i] {
                Some(mut t) => {
                    t.reset();
                    self.cells.set(i, Some(t));
                },
                None => {},
            }
            i += 1;
        }
        proof {
            assert(self.cells@ =~= reset_cells(old(self).cells@));
        }
    }

    /// Whether a laser piece stands somewhere on the board.
    pub fn laser_placed(&self) -> (r: bool)
        ensures
            r == (first_laser(self.cells@) is Some),
    {
        self.laser_position().is_some()
    }

    /// The cell of the first laser piece on the board, if any.
    pub(crate) fn laser_position(&self) -> (r: Option<usize>)
        ensures
            r is Some <==> first_laser(self.cells@) is Some,
            r matches Some(i) ==> i == first_laser(self.cells@)->0,
    {
        let n = self.cells.len();
        let mut i: usize = 0;
        while i < n
            invariant
                n == self.cells@.len(),
                i <= n,
                first_laser(self.cells@) == first_laser_from(self.cells@, i as int),
            decreases n - i,
        {
            proof {
                lemma_first_laser_from_unfold(self.cells@, i as int);
            }
            match self.cells[i] {
                Some(t) => {
                    if t.type_ == TokenType::Laser {
                        return Some(i);
                    }
                },
                None => {},
            }
            i += 1;
        }
        None
    }

    /// Whether a laser piece stands on the board with its rotation set.
    pub fn laser_placed_and_rotated(&self) -> (r: bool)
        ensures
            r == laser_ready(self.cells@),
    {
        match self.laser_position() {
            Some(i) => {
                proof {
                    lemma_first_laser_holds_laser(self.cells@);
                }
                match self.cells[i] {
                    Some(t) => t.orientation.is_some(),
                    None => false,
                }
            },
            None => false,
        }
    }

    /// Whether every placed token has its rotation set.
    pub fn all_placed_tokens_have_orientation_set(&self) -> (r: bool)
        ensures
            r == forall|i: int|
                0 <= i < self.cells@.len() ==> ((#[trigger] self.cells@[i]) matches Some(t)
                    ==> t.orientation is Some),
    {
        let n = self.cells.len();
        let mut i: usize = 0;
        while i < n
            invariant
                n == self.cells@.len(),
                i <= n,
                forall|j: int|
                    0 <= j < i ==> ((#[trigger] self.cells@[j]) matches Some(t)
                        ==> t.orientation is Some),
            decreases n - i,
        {
            match self.cells[i] {
                Some(t) => {
                    if t.orientation.is_none() {
                        return false;
                    }
                },
                None => {},
            }
            i += 1;
        }
        true
    }

    /// Number of bag tokens of the given type.
    pub(crate) fn count_tokens_to_be_added_by_type(&self, type_: TokenType) -> (r: usize)
        ensures
            r == bag_count_type(self.tokens_to_be_added@, type_),
    {
        let n = self.tokens_to_be_added.len();
        let mut count: usize = 0;
        let mut i: usize = 0;
        while i < n
            invariant
                n == self.tokens_to_be_added@.len(),
                i <= n,
                count == bag_count_type(self.tokens_to_be_added@.take(i as int), type_),
                count <= i,
            decreases n - i,
        {
            proof {
                lemma_bag_count_type_take(self.tokens_to_be_added@, type_, i as int);
            }
            if self.tokens_to_be_added[i].type_ == type_ {
                count += 1;
            }
            i += 1;
        }
        proof {
            assert(self.tokens_to_be_added@.take(n as int) =~= self.tokens_to_be_added@);
        }
        count
    }

    /// Number of bag tokens that must be lit.
    pub(crate) fn count_must_light_tokens_to_be_added(&self) -> (r: usize)
        ensures
            r == bag_count_must_light(self.tokens_to_be_added@),
    {
        let n = self.tokens_to_be_added.len();
        let mut count: usize = 0;
        let mut i: usize = 0;
        while i < n
            invariant
                n == self.tokens_to_be_added@.len(),
                i <= n,
                count == bag_count_must_light(self.tokens_to_be_added@.take(i as int)),
                count <= i,
            decreases n - i,
        {
            proof {
                lemma_bag_count_must_light_take(self.tokens_to_be_added@, i as int);
            }
            if self.tokens_to_be_added[i].must_light {
                count += 1;
            }
            i += 1;
        }
        proof {
            assert(self.tokens_to_be_added@.take(n as int) =~= self.tokens_to_be_added@);
        }
        count
    }
}

/// A copy of a cell vector; tokens are plain values.
pub(crate) fn copy_cells(v: &Vec<Option<Token>>) -> (r: Vec<Option<Token>>)
    ensures
        r@ == v@,
{
    let r = v.clone();
    proof {
        assert forall|i: int| 0 <= i < r@.len() implies r@[i] == v@[i] by {
            assert(cloned::<Option<Token>>(v@[i], r@[i]));
        }
        assert(r@ =~= v@);
    }
    r
}

/// A copy of a token vector; tokens are plain values.
pub(crate) fn copy_tokens(v: &Vec<Token>) -> (r: Vec<Token>)
    ensures
        r@ == v@,
{
    let r = v.clone();
    proof {
        assert forall|i: int| 0 <= i < r@.len() implies r@[i] == v@[i] by {
            assert(cloned::<Token>(v@[i], r@[i]));
        }
        assert(r@ =~= v@);
    }
    r
}

/// Unfolding step for `first_laser_from` at index `i`.
pub proof fn lemma_first_laser_from_unfold(cells: Seq<Option<Token>>, i: int)
    requires
        0 <= i < cells.len(),
    ensures
        first_laser_from(cells, i) == if cells[i] matches Some(t) && t.type_ == TokenType::Laser {
            Some(i)
        } else {
            first_laser_from(cells, i + 1)
        },
{
}

/// The first-laser index, when it exists, is in range and holds a laser.
pub proof fn lemma_first_laser_holds_laser(cells: Seq<Option<Token>>)
    ensures
        first_laser(cells) matches Some(i) ==> 0 <= i < cells.len() && (cells[i] matches Some(t)
            && t.type_ == TokenType::Laser),
{
    lemma_first_laser_from_holds_laser(cells, 0);
}

proof fn lemma_first_laser_from_holds_laser(cells: Seq<Option<Token>>, i: int)
    ensures
        first_laser_from(cells, i) matches Some(k) ==> i <= k < cells.len() && (cells[k] matches Some(
            t,
        ) && t.type_ == TokenType::Laser),
    decreases cells.len() - i,
{
    if 0 <= i < cells.len() {
        lemma_first_laser_from_holds_laser(cells, i + 1);
    }
}

/// The child board keeps every placed piece of the parent board: same type
/// and must-light flag in the same cell, and a rotation once set is kept.
pub open spec fn cells_extends(child: Seq<Option<Token>>, parent: Seq<Option<Token>>) -> bool {
    &&& child.len() == parent.len()
    &&& forall|i: int|
        0 <= i < parent.len() ==> ((#[trigger] parent[i]) matches Some(p) ==> ((
        #[trigger] child[i]) matches Some(c) && c.type_ == p.type_ && c.must_light == p.must_light
            && (p.orientation is Some ==> c.orientation == p.orientation)))
}

/// Board extension is transitive.
pub proof fn lemma_cells_extends_trans(
    a: Seq<Option<Token>>,
    b: Seq<Option<Token>>,
    c: Seq<Option<Token>>,
)
    requires
        cells_extends(a, b),
        cells_extends(b, c),
    ensures
        cells_extends(a, c),
{
    assert forall|i: int| 0 <= i < c.len() implies ((#[trigger] c[i]) matches Some(p) ==> ((
    #[trigger] a[i]) matches Some(q) && q.type_ == p.type_ && q.must_light == p.must_light && (
    p.orientation is Some ==> q.orientation == p.orientation))) by {
        if c[i] is Some {
            assert(b[i] is Some);
        }
    }
}

/// Appending one token to a bag prefix extends its per-type count.
pub proof fn lemma_bag_count_type_take(ts: Seq<Token>, ty: TokenType, i: int)
    requires
        0 <= i < ts.len(),
    ensures
        bag_count_type(ts.take(i + 1), ty) == bag_count_type(ts.take(i), ty) + if ts[i].type_
            == ty {
            1int
        } else {
            0int
        },
{
    assert(ts.take(i + 1).drop_last() =~= ts.take(i));
    assert(ts.take(i + 1).last() == ts[i]);
}

/// Appending one token to a bag prefix extends its must-light count.
pub proof fn lemma_bag_count_must_light_take(ts: Seq<Token>, i: int)
    requires
        0 <= i < ts.len(),
    ensures
        bag_count_must_light(ts.take(i + 1)) == bag_count_must_light(ts.take(i)) + if ts[i]
            .must_light {
            1int
        } else {
            0int
        },
{
    assert(ts.take(i + 1).drop_last() =~= ts.take(i));
    assert(ts.take(i + 1).last() == ts[i]);
}

impl SolverNode {
    /// The cell of the first cell blocker on the board, if any.
    pub(crate) fn blocker_position(&self) -> (r: Option<usize>)
        ensures
            r is Some <==> first_blocker(self.cells@) is Some,
            r matches Some(i) ==> i == first_blocker(self.cells@)->0,
    {
        let n = self.cells.len();
        let mut i: usize = 0;
        while i < n
            invariant
                n == self.cells@.len(),
                i <= n,
                first_blocker(self.cells@) == first_blocker_from(self.cells@, i as int),
            decreases n - i,
        {
            proof {
                lemma_first_blocker_from_unfold(self.cells@, i as int);
            }
            match self.cells[i] {
                Some(t) => {
                    if t.type_ == TokenType::CellBlocker {
                        return Some(i);
                    }
                },
                None => {},
            }
            i += 1;
        }
        None
    }

    /// The directions the piece at `cell_index` cannot face without its
    /// beam leaving the board.
    pub fn forbidden_orientations(&self, cell_index: usize) -> (r: [Option<Orientation>; 2])
        requires
            cell_index < 25,
        ensures
            r[0] == spec_forbidden_orientations(self.cells@, cell_index as int).0,
            r[1] == spec_forbidden_orientations(self.cells@, cell_index as int).1,
    {
        if cell_index == 12 {
            return [None, None];
        }
        match self.blocker_position() {
            Some(b) => {
                let (n0, n1): (Option<usize>, Option<usize>) = if b == 0 {
                    (Some(1), Some(5))
                } else if b == 4 {
                    (Some(3), Some(9))
                } else if b == 20 {
                    (Some(15), Some(21))
                } else if b == 24 {
                    (Some(23), Some(19))
                } else if b == 1 {
                    (Some(6), None)
                } else if b == 2 {
                    (Some(7), None)
                } else if b == 3 {
                    (Some(8), None)
                } else if b == 9 {
                    (Some(8), None)
                } else if b == 14 {
                    (Some(13), None)
                } else if b == 19 {
                    (Some(18), None)
                } else if b == 23 {
                    (Some(18), None)
                } else if b == 22 {
                    (Some(17), None)
                } else if b == 21 {
                    (Some(16), None)
                } else if b == 15 {
                    (Some(16), None)
                } else if b == 10 {
                    (Some(11), None)
                } else if b == 5 {
                    (Some(6), None)
                } else {
                    (None, None)
                };
                let hit = (match n0 {
                    Some(x) => x == cell_index,
                    None => false,
                }) || (match n1 {
                    Some(x) => x == cell_index,
                    None => false,
                });
                if hit {
                    if b == 21 || b == 22 || b == 23 {
                        [Some(Orientation::North), None]
                    } else if b == 9 || b == 14 || b == 19 {
                        [Some(Orientation::East), None]
                    } else if b == 1 || b == 2 || b == 3 {
                        [Some(Orientation::South), None]
                    } else if b == 5 || b == 10 || b == 15 {
                        [Some(Orientation::West), None]
                    } else {
                        if cell_index == 1 || cell_index == 5 {
                            [Some(Orientation::South), Some(Orientation::West)]
                        } else if cell_index == 3 || cell_index == 9 {
                            [Some(Orientation::South), Some(Orientation::East)]
                        } else if cell_index == 19 || cell_index == 23 {
                            [Some(Orientation::North), Some(Orientation::East)]
                        } else {
                            [Some(Orientation::North), Some(Orientation::West)]
                        }
                    }
                } else {
                    base_forbidden_exec(cell_index)
                }
            },
            None => base_forbidden_exec(cell_index),
        }
    }

    /// The rotation ordinals branch generation tries for a piece of type
    /// `token_type` standing at `cell_index`.
    pub(crate) fn orientation_iter(&self, token_type: &TokenType, cell_index: usize) -> (r: Vec<
        usize,
    >)
        requires
            self.cells@.len() == 25,
            cell_index < 25,
            *token_type == TokenType::TargetMirror ==> (self.cells@[cell_index as int] matches Some(
                t,
            ) && t.type_ == TokenType::TargetMirror),
        ensures
            r@ == spec_allowed_orientation_indices(self.cells@, *token_type, cell_index as int),
    {
        let range = token_type.orientation_range();
        match token_type {
            TokenType::BeamSplitter | TokenType::DoubleMirror | TokenType::CellBlocker => range,
            TokenType::Laser => {
                let f = self.forbidden_orientations(cell_index);
                retain_allowed(range, &f, false)
            },
            TokenType::Checkpoint => {
                let f = self.forbidden_orientations(cell_index);
                retain_allowed(range, &f, true)
            },
            TokenType::TargetMirror => {
                let f = self.forbidden_orientations(cell_index);
                self.target_mirror_orientation_iter(f, cell_index)
            },
        }
    }

    /// The rotations tried for a target mirror: every rotation for a free
    /// target, only board-facing rotations for one that must be lit.
    pub(crate) fn target_mirror_orientation_iter(
        &self,
        forbidden: [Option<Orientation>; 2],
        cell_index: usize,
    ) -> (r: Vec<usize>)
        requires
            self.cells@.len() == 25,
            cell_index < 25,
            self.cells@[cell_index as int] matches Some(t) && t.type_ == TokenType::TargetMirror,
            forbidden[0] == spec_forbidden_orientations(self.cells@, cell_index as int).0,
            forbidden[1] == spec_forbidden_orientations(self.cells@, cell_index as int).1,
        ensures
            r@ == spec_allowed_orientation_indices(
                self.cells@,
                TokenType::TargetMirror,
                cell_index as int,
            ),
    {
        let token = match self.cells[cell_index] {
            Some(t) => t,
            None => unreached(),
        };
        let range = TokenType::TargetMirror.orientation_range();
        if token.must_light {
            retain_allowed(range, &forbidden, false)
        } else {
            range
        }
    }

    /// Children obtained by giving the (unrotated) piece at `cell_index`
    /// each rotation that branch generation tries there; no children if the
    /// cell is empty.
    pub fn generate_orientation_branches_at_cell(&self, cell_index: usize) -> (r: Vec<SolverNode>)
        requires
            self.inv(),
            cell_index < 25,
            self.cells@[cell_index as int] matches Some(t) ==> t.orientation is None,
        ensures
            forall|k: int| 0 <= k < r@.len() ==> branch_of(#[trigger] r@[k], *self),
            forall|k: int| 0 <= k < r@.len() ==> node_weight(#[trigger] r@[k]) < node_weight(*self),
            r@.len() <= 4,
            self.cells@[cell_index as int] is None ==> r@.len() == 0,
            self.cells@[cell_index as int] matches Some(t) ==> ({
                let allowed = spec_allowed_orientation_indices(
                    self.cells@,
                    t.type_,
                    cell_index as int,
                );
                &&& r@.len() == allowed.len()
                &&& forall|k: int|
                    0 <= k < r@.len() ==> ({
                        &&& (#[trigger] r@[k]).cells@ == cells_with_rotation(
                            self.cells@,
                            cell_index as int,
                            allowed[k],
                        )
                        &&& r@[k].tokens_to_be_added@ == self.tokens_to_be_added@
                        &&& r@[k].tokens_to_be_added_shuffled@
                            == self.tokens_to_be_added_shuffled@
                        &&& r@[k].targets == self.targets
                    })
            }),
    {
        let token = match self.cells[cell_index] {
            Some(t) => t,
            None => {
                return Vec::new();
            },
        };
        let allowed = self.orientation_iter(&token.type_, cell_index);
        proof {
            lemma_allowed_indices_len(self.cells@, token.type_, cell_index as int);
        }
        let mut result: Vec<SolverNode> = Vec::new();
        let n = allowed.len();
        let mut k: usize = 0;
        while k < n
            invariant
                n == allowed@.len(),
                n <= 4,
                k <= n,
                self.inv(),
                cell_index < 25,
                self.cells@[cell_index as int] == Some(token),
                token.orientation is None,
                allowed@ == spec_allowed_orientation_indices(
                    self.cells@,
                    token.type_,
                    cell_index as int,
                ),
                result@.len() == k,
                forall|j: int| 0 <= j < result@.len() ==> branch_of(#[trigger] result@[j], *self),
                forall|j: int|
                    0 <= j < result@.len() ==> node_weight(#[trigger] result@[j]) < node_weight(
                        *self,
                    ),
                forall|j: int|
                    0 <= j < result@.len() ==> ({
                        &&& (#[trigger] result@[j]).cells@ == cells_with_rotation(
                            self.cells@,
                            cell_index as int,
                            allowed@[j],
                        )
                        &&& result@[j].tokens_to_be_added@ == self.tokens_to_be_added@
                        &&& result@[j].tokens_to_be_added_shuffled@
                            == self.tokens_to_be_added_shuffled@
                        &&& result@[j].targets == self.targets
                    }),
            decreases n - k,
        {
            let idx = allowed[k];
            proof {
                lemma_allowed_indices_in_range(self.cells@, token.type_, cell_index as int);
            }
            let rotated = Token { orientation: Some(Orientation::from_index(idx)), ..token };
            let mut child = self.duplicate();
            child.cells.set(cell_index, Some(rotated));
            proof {
                lemma_cells_pieces_update(self.cells@, cell_index as int, Some(rotated));
                assert(opt_pieces(self.cells@[cell_index as int]) =~= opt_pieces(Some(rotated)));
                assert forall|p: (TokenType, bool)|
                    cells_pieces(child.cells@).count(p) == cells_pieces(self.cells@).count(
                        p,
                    ) by {
                    assert(cells_pieces(child.cells@).add(
                        opt_pieces(self.cells@[cell_index as int]),
                    ).count(p) == cells_pieces(self.cells@).add(opt_pieces(Some(rotated))).count(
                        p,
                    ));
                }
                assert(cells_pieces(child.cells@) =~= cells_pieces(self.cells@));
                assert(child.pieces() =~= self.pieces());
                assert(token_wf(rotated)) by {
                    if token.type_ == TokenType::CellBlocker {
                        assert(allowed@ == crate::token::spec_orientation_range(
                            TokenType::CellBlocker,
                        ));
                        assert(idx == 0);
                    }
                }
                assert(cells_wf(child.cells@));
                assert(cells_pristine(child.cells@));
                assert(cells_extends(child.cells@, self.cells@));
                lemma_cells_counts(child.cells@);
                lemma_cells_counts(self.cells@);
                lemma_cells_pieces_core_eq(child.cells@, child.cells@);
                assert(child.laser_count() == self.laser_count());
                assert(branch_of(child, *self));
                lemma_unoriented_count_update(self.cells@, cell_index as int, Some(rotated));
                assert(unoriented_count(child.cells@) + 1 == unoriented_count(self.cells@));
                assert forall|j: int|
                    0 <= j < self.cells@.len() implies (((#[trigger] self.cells@[j]) matches Some(
                    t,
                ) && t.type_ == TokenType::Laser) <==> ((#[trigger] child.cells@[j]) matches Some(
                    u,
                ) && u.type_ == TokenType::Laser)) by {}
                lemma_first_laser_same(self.cells@, child.cells@);
                if laser_ready(self.cells@) {
                    lemma_first_laser_holds_laser(self.cells@);
                    let f = first_laser(self.cells@)->0;
                    assert(f != cell_index);
                    assert(child.cells@[f] == self.cells@[f]);
                    assert(laser_ready(child.cells@));
                }
                assert(node_weight(child) < node_weight(*self));
                assert(child.cells@ == cells_with_rotation(
                    self.cells@,
                    cell_index as int,
                    allowed@[k as int],
                ));
            }
            result.push(child);
            k += 1;
        }
        result
    }
}

/// Every rotation ordinal branch generation tries is below 4.
pub proof fn lemma_allowed_indices_in_range(
    cells: Seq<Option<Token>>,
    type_: TokenType,
    cell: int,
)
    ensures
        forall|k: int|
            0 <= k < spec_allowed_orientation_indices(cells, type_, cell).len()
                ==> #[trigger] spec_allowed_orientation_indices(cells, type_, cell)[k] < 4,
{
    let range = crate::token::spec_orientation_range(type_);
    assert(forall|k: int| 0 <= k < range.len() ==> #[trigger] range[k] < 4);
    let s = spec_allowed_orientation_indices(cells, type_, cell);
    let f = spec_forbidden_orientations(cells, cell);
    assert forall|k: int| 0 <= k < s.len() implies #[trigger] s[k] < 4 by {
        lemma_filter_element_bound(range, |i: usize| !orientation_excluded(f, false, i), k);
        lemma_filter_element_bound(range, |i: usize| !orientation_excluded(f, true, i), k);
    }
}

/// Branch generation tries at most four rotations.
pub proof fn lemma_allowed_indices_len(
    cells: Seq<Option<Token>>,
    type_: TokenType,
    cell: int,
)
    ensures
        spec_allowed_orientation_indices(cells, type_, cell).len() <= 4,
{
    let range = crate::token::spec_orientation_range(type_);
    let f = spec_forbidden_orientations(cells, cell);
    range.lemma_filter_len(|i: usize| !orientation_excluded(f, false, i));
    range.lemma_filter_len(|i: usize| !orientation_excluded(f, true, i));
}

/// Elements of a filtered ordinal sequence come from the original, so they
/// keep its bound.
proof fn lemma_filter_element_bound(s: Seq<usize>, p: spec_fn(usize) -> bool, k: int)
    requires
        forall|j: int| 0 <= j < s.len() ==> #[trigger] s[j] < 4,
    ensures
        0 <= k < s.filter(p).len() ==> s.filter(p)[k] < 4,
    decreases s.len(),
{
    reveal(Seq::filter);
    if s.len() > 0 && 0 <= k < s.filter(p).len() {
        assert(forall|j: int| 0 <= j < s.len() - 1 ==> s.drop_last()[j] == #[trigger] s[j]);
        if k < s.drop_last().filter(p).len() {
            lemma_filter_element_bound(s.drop_last(), p, k);
            assert(s.filter(p)[k] == s.drop_last().filter(p)[k]);
        } else {
            assert(s.filter(p)[k] == s.last());
        }
    }
}

/// Keeps the rotation ordinals of `range` that the forbidden directions do
/// not rule out.
fn retain_allowed(range: Vec<usize>, f: &[Option<Orientation>; 2], fold_180: bool) -> (r: Vec<
    usize,
>)
    requires
        forall|j: int| 0 <= j < range@.len() ==> #[trigger] range@[j] < 4,
    ensures
        r@ == range@.filter(|i: usize| !orientation_excluded(((*f)[0], (*f)[1]), fold_180, i)),
{
    let mut r: Vec<usize> = Vec::new();
    let n = range.len();
    let mut k: usize = 0;
    while k < n
        invariant
            n == range@.len(),
            k <= n,
            forall|j: int| 0 <= j < range@.len() ==> #[trigger] range@[j] < 4,
            r@ == range@.take(k as int).filter(
                |i: usize| !orientation_excluded(((*f)[0], (*f)[1]), fold_180, i),
            ),
        decreases n - k,
    {
        let i = range[k];
        let excluded = if fold_180 {
            (match f[0] {
                Some(d) => d.to_index() % 2 == i,
                None => false,
            }) || (match f[1] {
                Some(d) => d.to_index() % 2 == i,
                None => false,
            })
        } else {
            (match f[0] {
                Some(d) => d.to_index() == i,
                None => false,
            }) || (match f[1] {
                Some(d) => d.to_index() == i,
                None => false,
            })
        };
        if !excluded {
            r.push(i);
        }
        proof {
            reveal(Seq::filter);
            assert(range@.take(k + 1).drop_last() =~= range@.take(k as int));
            assert(range@.take(k + 1).last() == range@[k as int]);
            let p = |i: usize| !orientation_excluded(((*f)[0], (*f)[1]), fold_180, i);
            assert(excluded == orientation_excluded(((*f)[0], (*f)[1]), fold_180, i));
            assert(r@ =~= range@.take(k + 1).filter(p));
        }
        k += 1;
    }
    proof {
        assert(range@.take(n as int) =~= range@);
    }
    r
}

/// The purely geometric out-of-board directions of a cell.
fn base_forbidden_exec(cell_index: usize) -> (r: [Option<Orientation>; 2])
    ensures
        r[0] == base_forbidden(cell_index as int).0,
        r[1] == base_forbidden(cell_index as int).1,
{
    if cell_index == 0 {
        [Some(Orientation::South), Some(Orientation::West)]
    } else if cell_index == 4 {
        [Some(Orientation::South), Some(Orientation::East)]
    } else if cell_index == 20 {
        [Some(Orientation::North), Some(Orientation::West)]
    } else if cell_index == 24 {
        [Some(Orientation::North), Some(Orientation::East)]
    } else if cell_index == 21 || cell_index == 22 || cell_index == 23 {
        [Some(Orientation::North), None]
    } else if cell_index == 9 || cell_index == 14 || cell_index == 19 {
        [Some(Orientation::East), None]
    } else if cell_index == 1 || cell_index == 2 || cell_index == 3 {
        [Some(Orientation::South), None]
    } else if cell_index == 5 || cell_index == 10 || cell_index == 15 {
        [Some(Orientation::West), None]
    } else {
        [None, None]
    }
}

/// The order in which branch generation visits cells: around the rim from
/// a corner, then spiralling inward to the centre.  A placement heuristic;
/// any permutation of the 25 cells would be sound.
pub(crate) fn spiral_order() -> (r: Vec<usize>)
    ensures
        r@.len() == 25,
        forall|k: int| 0 <= k < r@.len() ==> #[trigger] r@[k] < 25,
        forall|c: usize| c < 25 ==> r@.contains(c),
{
    let r: Vec<usize> = vec![
        0, 1, 2, 3, 4, 9, 14, 19, 24, 23, 22, 21, 20, 15, 10, 5, 6, 7, 8, 13, 18, 17, 16, 11, 12,
    ];
    proof {
        assert(r@.contains(0usize)) by {
            assert(r@[0] == 0usize);
        }
        assert(r@.contains(1usize)) by {
            assert(r@[1] == 1usize);
        }
        assert(r@.contains(2usize)) by {
            assert(r@[2] == 2usize);
        }
        assert(r@.contains(3usize)) by {
            assert(r@[3] == 3usize);
        }
        assert(r@.contains(4usize)) by {
            assert(r@[4] == 4usize);
        }
        assert(r@.contains(5usize)) by {
            assert(r@[15] == 5usize);
        }
        assert(r@.contains(6usize)) by {
            assert(r@[16] == 6usize);
        }
        assert(r@.contains(7usize)) by {
            assert(r@[17] == 7usize);
        }
        assert(r@.contains(8usize)) by {
            assert(r@[18] == 8usize);
        }
        assert(r@.contains(9usize)) by {
            assert(r@[5] == 9usize);
        }
        assert(r@.contains(10usize)) by {
            assert(r@[14] == 10usize);
        }
        assert(r@.contains(11usize)) by {
            assert(r@[23] == 11usize);
        }
        assert(r@.contains(12usize)) by {
            assert(r@[24] == 12usize);
        }
        assert(r@.contains(13usize)) by {
            assert(r@[19] == 13usize);
        }
        assert(r@.contains(14usize)) by {
            assert(r@[6] == 14usize);
        }
        assert(r@.contains(15usize)) by {
            assert(r@[13] == 15usize);
        }
        assert(r@.contains(16usize)) by {
            assert(r@[22] == 16usize);
        }
        assert(r@.contains(17usize)) by {
            assert(r@[21] == 17usize);
        }
        assert(r@.contains(18usize)) by {
            assert(r@[20] == 18usize);
        }
        assert(r@.contains(19usize)) by {
            assert(r@[7] == 19usize);
        }
        assert(r@.contains(20usize)) by {
            assert(r@[12] == 20usize);
        }
        assert(r@.contains(21usize)) by {
            assert(r@[11] == 21usize);
        }
        assert(r@.contains(22usize)) by {
            assert(r@[10] == 22usize);
        }
        assert(r@.contains(23usize)) by {
            assert(r@[9] == 23usize);
        }
        assert(r@.contains(24usize)) by {
            assert(r@[8] == 24usize);
        }
    }
    r
}

/// The same cells innermost first.
pub(crate) fn spiral_order_reverse() -> (r: Vec<usize>)
    ensures
        r@.len() == 25,
        forall|k: int| 0 <= k < r@.len() ==> #[trigger] r@[k] < 25,
        forall|c: usize| c < 25 ==> r@.contains(c),
{
    let r: Vec<usize> = vec![
        12, 11, 16, 17, 18, 13, 8, 7, 6, 5, 10, 15, 20, 21, 22, 23, 24, 19, 14, 9, 4, 3, 2, 1, 0,
    ];
    proof {
        assert(r@.contains(0usize)) by {
            assert(r@[24] == 0usize);
        }
        assert(r@.contains(1usize)) by {
            assert(r@[23] == 1usize);
        }
        assert(r@.contains(2usize)) by {
            assert(r@[22] == 2usize);
        }
        assert(r@.contains(3usize)) by {
            assert(r@[21] == 3usize);
        }
        assert(r@.contains(4usize)) by {
            assert(r@[20] == 4usize);
        }
        assert(r@.contains(5usize)) by {
            assert(r@[9] == 5usize);
        }
        assert(r@.contains(6usize)) by {
            assert(r@[8] == 6usize);
        }
        assert(r@.contains(7usize)) by {
            assert(r@[7] == 7usize);
        }
        assert(r@.contains(8usize)) by {
            assert(r@[6] == 8usize);
        }
        assert(r@.contains(9usize)) by {
            assert(r@[19] == 9usize);
        }
        assert(r@.contains(10usize)) by {
            assert(r@[10] == 10usize);
        }
        assert(r@.contains(11usize)) by {
            assert(r@[1] == 11usize);
        }
        assert(r@.contains(12usize)) by {
            assert(r@[0] == 12usize);
        }
        assert(r@.contains(13usize)) by {
            assert(r@[5] == 13usize);
        }
        assert(r@.contains(14usize)) by {
            assert(r@[18] == 14usize);
        }
        assert(r@.contains(15usize)) by {
            assert(r@[11] == 15usize);
        }
        assert(r@.contains(16usize)) by {
            assert(r@[2] == 16usize);
        }
        assert(r@.contains(17usize)) by {
            assert(r@[3] == 17usize);
        }
        assert(r@.contains(18usize)) by {
            assert(r@[4] == 18usize);
        }
        assert(r@.contains(19usize)) by {
            assert(r@[17] == 19usize);
        }
        assert(r@.contains(20usize)) by {
            assert(r@[12] == 20usize);
        }
        assert(r@.contains(21usize)) by {
            assert(r@[13] == 21usize);
        }
        assert(r@.contains(22usize)) by {
            assert(r@[14] == 22usize);
        }
        assert(r@.contains(23usize)) by {
            assert(r@[15] == 23usize);
        }
        assert(r@.contains(24usize)) by {
            assert(r@[16] == 24usize);
        }
    }
    r
}

/// Whether `v` holds `x`.
pub(crate) fn vec_contains_usize(v: &Vec<usize>, x: usize) -> (r: bool)
    ensures
        r == v@.contains(x),
{
    let n = v.len();
    let mut k: usize = 0;
    while k < n
        invariant
            n == v@.len(),
            k <= n,
            forall|j: int| 0 <= j < k ==> v@[j] != x,
        decreases n - k,
    {
        if v[k] == x {
            return true;
        }
        k += 1;
    }
    false
}

/// A board whose first-laser search fails holds no laser at all.
pub proof fn lemma_first_laser_none(cells: Seq<Option<Token>>)
    ensures
        first_laser(cells) is None ==> forall|i: int|
            0 <= i < cells.len() ==> !((#[trigger] cells[i]) matches Some(t) && t.type_
                == TokenType::Laser),
{
    lemma_first_laser_from_none(cells, 0);
}

proof fn lemma_first_laser_from_none(cells: Seq<Option<Token>>, i: int)
    requires
        0 <= i,
    ensures
        first_laser_from(cells, i) is None ==> forall|j: int|
            i <= j < cells.len() ==> !((#[trigger] cells[j]) matches Some(t) && t.type_
                == TokenType::Laser),
    decreases cells.len() - i,
{
    if 0 <= i < cells.len() {
        lemma_first_laser_from_none(cells, i + 1);
        if first_laser_from(cells, i) is None {
            assert(!(cells[i] matches Some(t) && t.type_ == TokenType::Laser));
            assert(first_laser_from(cells, i + 1) is None);
            assert forall|j: int| i <= j < cells.len() implies !((#[trigger] cells[j]) matches Some(
                t,
            ) && t.type_ == TokenType::Laser) by {
                if j > i {
                    assert(!(cells[j] matches Some(t) && t.type_ == TokenType::Laser));
                }
            }
        }
    }
}

/// The node's laser count, read off its pieces.
pub proof fn lemma_node_laser_count(n: SolverNode)
    ensures
        n.laser_count() == n.pieces().count((TokenType::Laser, false)) + n.pieces().count(
            (TokenType::Laser, true),
        ),
        forall|ty: TokenType|
            #[trigger] bag_count_type(n.tokens_to_be_added@, ty) == bag_pieces(
                n.tokens_to_be_added@,
            ).count((ty, false)) + bag_pieces(n.tokens_to_be_added@).count((ty, true)),
        forall|ty: TokenType|
            #[trigger] bag_count_type(n.tokens_to_be_added_shuffled@, ty) == bag_pieces(
                n.tokens_to_be_added_shuffled@,
            ).count((ty, false)) + bag_pieces(n.tokens_to_be_added_shuffled@).count((ty, true)),
{
    lemma_cells_counts(n.cells@);
    lemma_bag_counts(n.tokens_to_be_added@);
    lemma_bag_counts(n.tokens_to_be_added_shuffled@);
}

/// The board with rotation ordinal `idx` written into the token at `cell`.
pub open spec fn cells_with_rotation(cells: Seq<Option<Token>>, cell: int, idx: usize) -> Seq<
    Option<Token>,
> {
    cells.update(
        cell,
        Some(
            Token {
                orientation: Some(crate::orientation::orientation_of(idx as int)),
                ..cells[cell]->0
            },
        ),
    )
}

/// `x` is `g` with the piece at `c` given the `k`-th rotation that branch
/// generation tries there.
pub open spec fn rotation_child(x: SolverNode, g: SolverNode, c: int, k: int) -> bool {
    &&& 0 <= k < spec_allowed_orientation_indices(g.cells@, g.cells@[c]->0.type_, c).len()
    &&& x.cells@ == cells_with_rotation(
        g.cells@,
        c,
        spec_allowed_orientation_indices(g.cells@, g.cells@[c]->0.type_, c)[k],
    )
    &&& x.tokens_to_be_added@ == g.tokens_to_be_added@
    &&& x.tokens_to_be_added_shuffled@ == g.tokens_to_be_added_shuffled@
    &&& x.targets == g.targets
}

/// `x` is `g` with the last ordered piece placed on cell `c`.
pub open spec fn placement_child(x: SolverNode, g: SolverNode, c: int) -> bool {
    &&& g.tokens_to_be_added_shuffled@.len() > 0
    &&& x.cells@ == g.cells@.update(c, Some(g.tokens_to_be_added_shuffled@.last()))
    &&& x.tokens_to_be_added@ == g.tokens_to_be_added@
    &&& x.tokens_to_be_added_shuffled@ == g.tokens_to_be_added_shuffled@.drop_last()
    &&& x.targets == g.targets
}

/// `x` gives some paused cell one of its tried rotations.
pub open spec fn rotation_sound(x: SolverNode, g: SolverNode, paused: Seq<usize>) -> bool {
    exists|ii: int, k: int|
        0 <= ii < paused.len() && #[trigger] rotation_child(x, g, paused[ii] as int, k)
}

/// `x` places the last ordered piece on some empty, beam-visited cell.
pub open spec fn placement_sound(x: SolverNode, g: SolverNode, vis: Seq<bool>) -> bool {
    exists|c: int|
        0 <= c < 25 && g.cells@[c] is None && #[trigger] crate::checker::cell_visited_any(vis, c)
            && placement_child(x, g, c)
}

/// Some collected child gives the piece at `c` its `k`-th tried rotation.
pub open spec fn rotation_covered(out: Seq<SolverNode>, g: SolverNode, c: int, k: int) -> bool {
    exists|j: int| 0 <= j < out.len() && rotation_child(#[trigger] out[j], g, c, k)
}

/// Some collected child places the last ordered piece on cell `c`.
pub open spec fn placement_covered(out: Seq<SolverNode>, g: SolverNode, c: int) -> bool {
    exists|j: int| 0 <= j < out.len() && placement_child(#[trigger] out[j], g, c)
}

/// `x` is `g` with a fresh laser placed on the empty cell `c` and given
/// the `k`-th rotation tried there, and one laser taken out of the bag.
pub open spec fn laser_child(x: SolverNode, g: SolverNode, c: int, k: int) -> bool {
    let laser = Token {
        type_: TokenType::Laser,
        orientation: None,
        lit: true,
        target_lit: None,
        must_light: false,
    };
    let mid = g.cells@.update(c, Some(laser));
    &&& 0 <= c < 25
    &&& g.cells@[c] is None
    &&& 0 <= k < spec_allowed_orientation_indices(mid, TokenType::Laser, c).len()
    &&& x.cells@ == cells_with_rotation(
        mid,
        c,
        spec_allowed_orientation_indices(mid, TokenType::Laser, c)[k],
    )
    &&& x.tokens_to_be_added@.len() + 1 == g.tokens_to_be_added@.len()
    &&& bag_pieces(x.tokens_to_be_added@).insert((TokenType::Laser, false)) == bag_pieces(
        g.tokens_to_be_added@,
    )
    &&& x.tokens_to_be_added_shuffled@ == g.tokens_to_be_added_shuffled@
    &&& x.targets == g.targets
}

/// `x` places and rotates a fresh laser somewhere on `g`'s board.
pub open spec fn laser_child_sound(x: SolverNode, g: SolverNode) -> bool {
    exists|c: int, k: int| #[trigger] laser_child(x, g, c, k)
}

/// Some collected child places the fresh laser on `c` with rotation `k`.
pub open spec fn laser_covered(out: Seq<SolverNode>, g: SolverNode, c: int, k: int) -> bool {
    exists|j: int| 0 <= j < out.len() && laser_child(#[trigger] out[j], g, c, k)
}

/// The child-shape predicates read their board argument only through its
/// views: boards with equal views induce the same shapes.
pub proof fn lemma_shape_preds_view_eq(g1: SolverNode, g2: SolverNode)
    requires
        g1.cells@ == g2.cells@,
        g1.tokens_to_be_added@ == g2.tokens_to_be_added@,
        g1.tokens_to_be_added_shuffled@ == g2.tokens_to_be_added_shuffled@,
        g1.targets == g2.targets,
    ensures
        forall|x: SolverNode, c: int, k: int|
            #[trigger] rotation_child(x, g1, c, k) == rotation_child(x, g2, c, k),
        forall|x: SolverNode, c: int| #[trigger] placement_child(x, g1, c) == placement_child(
            x,
            g2,
            c,
        ),
        forall|x: SolverNode, paused: Seq<usize>|
            #[trigger] rotation_sound(x, g1, paused) == rotation_sound(x, g2, paused),
        forall|x: SolverNode, vis: Seq<bool>|
            #[trigger] placement_sound(x, g1, vis) == placement_sound(x, g2, vis),
        forall|out: Seq<SolverNode>, c: int, k: int|
            #[trigger] rotation_covered(out, g1, c, k) == rotation_covered(out, g2, c, k),
        forall|out: Seq<SolverNode>, c: int|
            #[trigger] placement_covered(out, g1, c) == placement_covered(out, g2, c),
{
    assert forall|x: SolverNode, c: int, k: int|
        #[trigger] rotation_child(x, g1, c, k) == rotation_child(x, g2, c, k) by {}
    assert forall|x: SolverNode, c: int| #[trigger] placement_child(x, g1, c) == placement_child(
        x,
        g2,
        c,
    ) by {}
    assert forall|x: SolverNode, paused: Seq<usize>|
        #[trigger] rotation_sound(x, g1, paused) == rotation_sound(x, g2, paused) by {
        if rotation_sound(x, g1, paused) {
            let (ii, k) = choose|ii: int, k: int|
                0 <= ii < paused.len() && #[trigger] rotation_child(x, g1, paused[ii] as int, k);
            assert(rotation_child(x, g2, paused[ii] as int, k));
        }
        if rotation_sound(x, g2, paused) {
            let (ii, k) = choose|ii: int, k: int|
                0 <= ii < paused.len() && #[trigger] rotation_child(x, g2, paused[ii] as int, k);
            assert(rotation_child(x, g1, paused[ii] as int, k));
        }
    }
    assert forall|x: SolverNode, vis: Seq<bool>|
        #[trigger] placement_sound(x, g1, vis) == placement_sound(x, g2, vis) by {
        if placement_sound(x, g1, vis) {
            let c = choose|c: int|
                0 <= c < 25 && g1.cells@[c] is None && #[trigger] crate::checker::cell_visited_any(
                    vis,
                    c,
                ) && placement_child(x, g1, c);
            assert(placement_child(x, g2, c));
        }
        if placement_sound(x, g2, vis) {
            let c = choose|c: int|
                0 <= c < 25 && g2.cells@[c] is None && #[trigger] crate::checker::cell_visited_any(
                    vis,
                    c,
                ) && placement_child(x, g2, c);
            assert(placement_child(x, g1, c));
        }
    }
    assert forall|out: Seq<SolverNode>, c: int, k: int|
        #[trigger] rotation_covered(out, g1, c, k) == rotation_covered(out, g2, c, k) by {
        if rotation_covered(out, g1, c, k) {
            let j = choose|j: int| 0 <= j < out.len() && rotation_child(#[trigger] out[j], g1, c, k);
            assert(rotation_child(out[j], g2, c, k));
        }
        if rotation_covered(out, g2, c, k) {
            let j = choose|j: int| 0 <= j < out.len() && rotation_child(#[trigger] out[j], g2, c, k);
            assert(rotation_child(out[j], g1, c, k));
        }
    }
    assert forall|out: Seq<SolverNode>, c: int|
        #[trigger] placement_covered(out, g1, c) == placement_covered(out, g2, c) by {
        if placement_covered(out, g1, c) {
            let j = choose|j: int|
                0 <= j < out.len() && placement_child(#[trigger] out[j], g1, c);
            assert(placement_child(out[j], g2, c));
        }
        if placement_covered(out, g2, c) {
            let j = choose|j: int|
                0 <= j < out.len() && placement_child(#[trigger] out[j], g2, c);
            assert(placement_child(out[j], g1, c));
        }
    }
}

impl SolverNode {
    /// Index of some laser piece in the unordered bag.
    fn find_bag_laser(&self) -> (r: usize)
        requires
            bag_count_type(self.tokens_to_be_added@, TokenType::Laser) > 0,
        ensures
            r < self.tokens_to_be_added@.len(),
            self.tokens_to_be_added@[r as int].type_ == TokenType::Laser,
    {
        let n = self.tokens_to_be_added.len();
        let mut i: usize = 0;
        while i < n
            invariant
                n == self.tokens_to_be_added@.len(),
                i <= n,
                forall|j: int|
                    0 <= j < i ==> (#[trigger] self.tokens_to_be_added@[j]).type_
                        != TokenType::Laser,
            decreases n - i,
        {
            if self.tokens_to_be_added[i].type_ == TokenType::Laser {
                return i;
            }
            i += 1;
        }
        proof {
            lemma_bag_count_type_zero(self.tokens_to_be_added@, TokenType::Laser);
        }
        unreached()
    }

    /// Children that place and rotate the laser: if it already stands
    /// unrotated on the board, one child per board-facing rotation; if it
    /// still waits in the bag, one child per empty cell (visited in spiral
    /// order) and rotation.  No children once the laser is placed and
    /// rotated.
    pub(crate) fn generate_laser_placement_branches(&mut self) -> (r: Vec<SolverNode>)
        requires
            old(self).inv(),
        ensures
            forall|k: int| 0 <= k < r@.len() ==> branch_of(#[trigger] r@[k], *old(self)),
            forall|k: int|
                0 <= k < r@.len() ==> node_weight(#[trigger] r@[k]) < node_weight(*old(self)),
            r@.len() <= 100,
            forall|k: int| 0 <= k < r@.len() ==> laser_ready((#[trigger] r@[k]).cells@),
            first_laser(old(self).cells@) matches Some(f) ==> (!laser_ready(old(self).cells@)
                ==> ({
                let allowed = spec_allowed_orientation_indices(
                    old(self).cells@,
                    old(self).cells@[f]->0.type_,
                    f,
                );
                &&& r@.len() == allowed.len()
                &&& forall|k: int|
                    0 <= k < r@.len() ==> rotation_child(#[trigger] r@[k], *old(self), f, k)
            })),
            (first_laser(old(self).cells@) is None && !laser_ready(old(self).cells@))
                ==> forall|k: int|
                0 <= k < r@.len() ==> laser_child_sound(#[trigger] r@[k], *old(self)),
            first_laser(old(self).cells@) is None ==> forall|c: int, k: int|
                (0 <= c < 25 && old(self).cells@[c] is None && 0 <= k
                    < spec_allowed_orientation_indices(
                    old(self).cells@.update(
                        c,
                        Some(
                            Token {
                                type_: TokenType::Laser,
                                orientation: None,
                                lit: true,
                                target_lit: None,
                                must_light: false,
                            },
                        ),
                    ),
                    TokenType::Laser,
                    c,
                ).len()) ==> #[trigger] laser_covered(r@, *old(self), c, k),
    {
        if self.laser_placed_and_rotated() {
            return Vec::new();
        }
        if self.laser_placed() {
            let pos = match self.laser_position() {
                Some(p) => p,
                None => unreached(),
            };
            proof {
                lemma_first_laser_holds_laser(self.cells@);
            }
            let children = self.generate_orientation_branches_at_cell(pos);
            proof {
                assert forall|k: int| 0 <= k < children@.len() implies rotation_child(
                    #[trigger] children@[k],
                    *old(self),
                    pos as int,
                    k,
                ) by {}
                assert forall|k: int| 0 <= k < children@.len() implies laser_ready(
                    (#[trigger] children@[k]).cells@,
                ) by {
                    let cc = children@[k].cells@;
                    assert(cc == cells_with_rotation(
                        self.cells@,
                        pos as int,
                        spec_allowed_orientation_indices(
                            self.cells@,
                            self.cells@[pos as int]->0.type_,
                            pos as int,
                        )[k],
                    ));
                    assert forall|j: int|
                        0 <= j < self.cells@.len() implies (((#[trigger] self.cells@[j]) matches Some(
                        t,
                    ) && t.type_ == TokenType::Laser) <==> ((#[trigger] cc[j]) matches Some(u)
                        && u.type_ == TokenType::Laser)) by {}
                    lemma_first_laser_same(self.cells@, cc);
                    assert(cc[pos as int]->0.orientation is Some);
                }
            }
            return children;
        }
        // The laser still waits in the bag: take it out, then try every
        // empty cell and rotation.
        proof {
            lemma_first_laser_none(self.cells@);
            lemma_cells_count_type_zero(self.cells@, TokenType::Laser);
            lemma_node_laser_count(*self);
        }
        let ghost parent = *self;
        let bag_idx = self.find_bag_laser();
        let ghost removed = self.tokens_to_be_added@[bag_idx as int];
        let _removed_token = self.tokens_to_be_added.remove(bag_idx);
        proof {
            lemma_bag_pieces_remove(parent.tokens_to_be_added@, bag_idx as int);
            assert(token_wf(removed));
            assert(piece_of(removed) == (TokenType::Laser, false));
        }
        let laser = Token::new(TokenType::Laser, None, false);
        let order = spiral_order();
        let mut result: Vec<SolverNode> = Vec::new();
        let mut k: usize = 0;
        while k < 25
            invariant
                k <= 25,
                order@.len() == 25,
                forall|j: int| 0 <= j < order@.len() ==> #[trigger] order@[j] < 25,
                parent.inv(),
                self.cells@ == parent.cells@,
                self.tokens_to_be_added@ == parent.tokens_to_be_added@.remove(bag_idx as int),
                self.tokens_to_be_added_shuffled@ == parent.tokens_to_be_added_shuffled@,
                self.targets == parent.targets,
                bag_idx < parent.tokens_to_be_added@.len(),
                removed == parent.tokens_to_be_added@[bag_idx as int],
                piece_of(removed) == (TokenType::Laser, false),
                laser == (crate::token::Token {
                    type_: TokenType::Laser,
                    orientation: None::<Orientation>,
                    lit: true,
                    target_lit: None::<bool>,
                    must_light: false,
                }),
                !laser_ready(parent.cells@),
                first_laser(parent.cells@) is None,
                result@.len() <= 4 * k,
                forall|j: int| 0 <= j < result@.len() ==> branch_of(#[trigger] result@[j], parent),
                forall|j: int|
                    0 <= j < result@.len() ==> node_weight(#[trigger] result@[j]) < node_weight(
                        parent,
                    ),
                forall|j: int| 0 <= j < result@.len() ==> laser_ready((#[trigger] result@[j]).cells@),
                forall|j: int|
                    0 <= j < result@.len() ==> laser_child_sound(#[trigger] result@[j], parent),
                forall|kk: int, k2: int|
                    (0 <= kk < k && parent.cells@[order@[kk] as int] is None && 0 <= k2
                        < spec_allowed_orientation_indices(
                        parent.cells@.update(
                            order@[kk] as int,
                            Some(
                                Token {
                                    type_: TokenType::Laser,
                                    orientation: None,
                                    lit: true,
                                    target_lit: None,
                                    must_light: false,
                                },
                            ),
                        ),
                        TokenType::Laser,
                        order@[kk] as int,
                    ).len()) ==> #[trigger] laser_covered(
                        result@,
                        parent,
                        order@[kk] as int,
                        k2,
                    ),
            decreases 25 - k,
        {
            let ci = order[k];
            let is_empty = match self.cells[ci] {
                None => true,
                Some(_) => false,
            };
            if is_empty {
                let mut mid = self.duplicate();
                mid.cells.set(ci, Some(laser));
                proof {
                    lemma_bag_pieces_remove(parent.tokens_to_be_added@, bag_idx as int);
                    lemma_cells_pieces_update(parent.cells@, ci as int, Some(laser));
                    assert(opt_pieces(parent.cells@[ci as int]) =~= Multiset::empty());
                    assert forall|p: (TokenType, bool)| mid.pieces().count(p)
                        == parent.pieces().count(p) by {
                        assert(cells_pieces(mid.cells@).add(
                            opt_pieces(parent.cells@[ci as int]),
                        ).count(p) == cells_pieces(parent.cells@).add(
                            opt_pieces(Some(laser)),
                        ).count(p));
                        assert(bag_pieces(mid.tokens_to_be_added@).insert(
                            piece_of(removed),
                        ).count(p) == bag_pieces(parent.tokens_to_be_added@).count(p));
                    }
                    assert(mid.pieces() =~= parent.pieces());
                    lemma_node_laser_count(mid);
                    lemma_node_laser_count(parent);
                    assert(mid.laser_count() == parent.laser_count());
                    assert(cells_wf(mid.cells@));
                    assert(cells_pristine(mid.cells@));
                    assert(bag_wf(mid.tokens_to_be_added@)) by {
                        assert(forall|j: int|
                            0 <= j < mid.tokens_to_be_added@.len()
                                ==> #[trigger] mid.tokens_to_be_added@[j]
                                == parent.tokens_to_be_added@[
                                if j < bag_idx {
                                    j
                                } else {
                                    j + 1
                                }]);
                    }
                    assert(bag_count_type(mid.tokens_to_be_added@, TokenType::CellBlocker)
                        == 0) by {
                        lemma_bag_counts(mid.tokens_to_be_added@);
                        lemma_bag_counts(parent.tokens_to_be_added@);
                        assert(bag_pieces(mid.tokens_to_be_added@).insert(
                            piece_of(removed),
                        ).count((TokenType::CellBlocker, false)) == bag_pieces(
                            parent.tokens_to_be_added@,
                        ).count((TokenType::CellBlocker, false)));
                        assert(bag_pieces(mid.tokens_to_be_added@).insert(
                            piece_of(removed),
                        ).count((TokenType::CellBlocker, true)) == bag_pieces(
                            parent.tokens_to_be_added@,
                        ).count((TokenType::CellBlocker, true)));
                    }
                    assert(cells_extends(mid.cells@, parent.cells@));
                    assert(mid.inv());
                    assert(branch_of(mid, parent));
                    lemma_unoriented_count_update(parent.cells@, ci as int, Some(laser));
                    assert(unoriented_count(mid.cells@) == unoriented_count(parent.cells@) + 1);
                    assert(node_weight(mid) + 2 <= node_weight(parent));
                }
                let mut children = mid.generate_orientation_branches_at_cell(ci);
                proof {
                    assert(forall|j: int|
                        0 <= j < children@.len() ==> branch_of(#[trigger] children@[j], mid));
                    // The fresh laser is the only laser of `mid`, so every
                    // rotated child has its laser placed and rotated.
                    lemma_first_laser_none(parent.cells@);
                    assert(mid.cells@[ci as int] matches Some(t) && t.type_ == TokenType::Laser);
                    assert(first_laser(mid.cells@) is Some) by {
                        lemma_first_laser_none(mid.cells@);
                    }
                    lemma_first_laser_holds_laser(mid.cells@);
                    assert(first_laser(mid.cells@) == Some(ci as int)) by {
                        let f = first_laser(mid.cells@)->0;
                        if f != ci {
                            assert(mid.cells@[f] == parent.cells@[f]);
                        }
                    }
                    assert forall|j: int| 0 <= j < children@.len() implies laser_ready(
                        (#[trigger] children@[j]).cells@,
                    ) by {
                        let cc = children@[j].cells@;
                        assert(cc == cells_with_rotation(
                            mid.cells@,
                            ci as int,
                            spec_allowed_orientation_indices(
                                mid.cells@,
                                mid.cells@[ci as int]->0.type_,
                                ci as int,
                            )[j],
                        ));
                        assert forall|jj: int|
                            0 <= jj < mid.cells@.len() implies (((
                        #[trigger] mid.cells@[jj]) matches Some(t) && t.type_ == TokenType::Laser)
                            <==> ((#[trigger] cc[jj]) matches Some(u) && u.type_
                            == TokenType::Laser)) by {}
                        lemma_first_laser_same(mid.cells@, cc);
                        assert(cc[ci as int]->0.orientation is Some);
                    }
                    assert forall|j: int| 0 <= j < children@.len() implies laser_child_sound(
                        #[trigger] children@[j],
                        parent,
                    ) by {
                        assert(rotation_child(children@[j], mid, ci as int, j));
                        assert(mid.cells@ == parent.cells@.update(
                            ci as int,
                            Some(
                                Token {
                                    type_: TokenType::Laser,
                                    orientation: None,
                                    lit: true,
                                    target_lit: None,
                                    must_light: false,
                                },
                            ),
                        ));
                        assert(laser_child(children@[j], parent, ci as int, j));
                    }
                }
                let ghost children0 = children@;
                let ghost result_before = result@;
                result.append(&mut children);
                proof {
                    assert forall|j: int| 0 <= j < result@.len() implies branch_of(
                        #[trigger] result@[j],
                        parent,
                    ) && node_weight(result@[j]) < node_weight(parent) by {
                        if j >= result_before.len() {
                            lemma_branch_of_trans(result@[j], mid, parent);
                            assert(node_weight(result@[j]) < node_weight(mid));
                        }
                    }
                    assert forall|kk: int, k2: int|
                        (0 <= kk < k + 1 && parent.cells@[order@[kk] as int] is None && 0 <= k2
                            < spec_allowed_orientation_indices(
                            parent.cells@.update(
                                order@[kk] as int,
                                Some(
                                    Token {
                                        type_: TokenType::Laser,
                                        orientation: None,
                                        lit: true,
                                        target_lit: None,
                                        must_light: false,
                                    },
                                ),
                            ),
                            TokenType::Laser,
                            order@[kk] as int,
                        ).len()) implies #[trigger] laser_covered(
                        result@,
                        parent,
                        order@[kk] as int,
                        k2,
                    ) by {
                        if kk < k {
                            assert(laser_covered(result_before, parent, order@[kk] as int, k2));
                            let j = choose|j: int|
                                0 <= j < result_before.len() && laser_child(
                                    #[trigger] result_before[j],
                                    parent,
                                    order@[kk] as int,
                                    k2,
                                );
                            assert(result@[j] == result_before[j]);
                            assert(laser_child(result@[j], parent, order@[kk] as int, k2));
                        } else {
                            assert(order@[kk] == ci);
                            assert(mid.cells@ == parent.cells@.update(
                                ci as int,
                                Some(
                                    Token {
                                        type_: TokenType::Laser,
                                        orientation: None,
                                        lit: true,
                                        target_lit: None,
                                        must_light: false,
                                    },
                                ),
                            ));
                            let j = result_before.len() + k2;
                            assert(result@[j] == children0[k2]);
                            assert(laser_child(result@[j], parent, ci as int, k2));
                        }
                    }
                }
            }
            k += 1;
        }
        proof {
            assert forall|c: int, k2: int|
                (0 <= c < 25 && parent.cells@[c] is None && 0 <= k2
                    < spec_allowed_orientation_indices(
                    parent.cells@.update(
                        c,
                        Some(
                            Token {
                                type_: TokenType::Laser,
                                orientation: None,
                                lit: true,
                                target_lit: None,
                                must_light: false,
                            },
                        ),
                    ),
                    TokenType::Laser,
                    c,
                ).len()) implies #[trigger] laser_covered(result@, parent, c, k2) by {
                assert(order@.contains(c as usize));
                let kk = choose|kk: int| 0 <= kk < order@.len() && order@[kk] == c as usize;
                assert(parent.cells@[order@[kk] as int] is None);
                assert(laser_covered(result@, parent, order@[kk] as int, k2));
            }
        }
        result
    }
}

/// No two of the orderings in `out[lo..hi]` are equal.
pub open spec fn orderings_distinct(out: Seq<Vec<Token>>, lo: int, hi: int) -> bool {
    forall|k1: int, k2: int|
        lo <= k1 < k2 < hi ==> (#[trigger] out[k1])@ != (#[trigger] out[k2])@
}

/// The token the shuffle generator mints for a must-light target mirror,
/// a free target mirror, a checkpoint, a double mirror or a beam splitter.
pub open spec fn minted_token(ty: TokenType, must_light: bool) -> Token {
    Token {
        type_: ty,
        orientation: None,
        lit: false,
        target_lit: if ty == TokenType::TargetMirror {
            Some(false)
        } else {
            None
        },
        must_light,
    }
}

/// What an ordering produced by the shuffle generator looks like: it
/// extends `prefix` by exactly the given numbers of must-light target
/// mirrors, free target mirrors, checkpoints, double mirrors and beam
/// splitters, all well formed and none of them a laser or a cell blocker.
#[verifier::opaque]
pub open spec fn ordering_extends(
    w: Seq<Token>,
    prefix: Seq<Token>,
    ml: nat,
    free: nat,
    cp: nat,
    dm: nat,
    bs: nat,
) -> bool {
    &&& w.len() == prefix.len() + ml + free + cp + dm + bs
    &&& w.take(prefix.len() as int) == prefix
    &&& bag_wf(w)
    &&& forall|j: int|
        prefix.len() <= j < w.len() ==> (#[trigger] w[j]).orientation is None
    &&& bag_pieces(w).count((TokenType::TargetMirror, true)) == bag_pieces(prefix).count(
        (TokenType::TargetMirror, true),
    ) + ml
    &&& bag_pieces(w).count((TokenType::TargetMirror, false)) == bag_pieces(prefix).count(
        (TokenType::TargetMirror, false),
    ) + free
    &&& bag_pieces(w).count((TokenType::Checkpoint, false)) == bag_pieces(prefix).count(
        (TokenType::Checkpoint, false),
    ) + cp
    &&& bag_pieces(w).count((TokenType::DoubleMirror, false)) == bag_pieces(prefix).count(
        (TokenType::DoubleMirror, false),
    ) + dm
    &&& bag_pieces(w).count((TokenType::BeamSplitter, false)) == bag_pieces(prefix).count(
        (TokenType::BeamSplitter, false),
    ) + bs
    &&& forall|p: (TokenType, bool)|
        (p != (TokenType::TargetMirror, true) && p != (TokenType::TargetMirror, false) && p != (
        TokenType::Checkpoint,
        false,
        ) && p != (TokenType::DoubleMirror, false) && p != (TokenType::BeamSplitter, false))
            ==> #[trigger] bag_pieces(w).count(p) == bag_pieces(prefix).count(p)
}

/// Extending the prefix by one token of a counted category and lowering
/// that category's count names the same set of orderings.
proof fn lemma_ordering_extends_absorb(
    w: Seq<Token>,
    prefix: Seq<Token>,
    t: Token,
    ml: nat,
    free: nat,
    cp: nat,
    dm: nat,
    bs: nat,
    ml2: nat,
    free2: nat,
    cp2: nat,
    dm2: nat,
    bs2: nat,
)
    requires
        ordering_extends(w, prefix.push(t), ml2, free2, cp2, dm2, bs2),
        t.orientation is None,
        ml + free + cp + dm + bs == ml2 + free2 + cp2 + dm2 + bs2 + 1,
        (piece_of(t) == (TokenType::TargetMirror, true) && ml == ml2 + 1 && free == free2 && cp
            == cp2 && dm == dm2 && bs == bs2) || (piece_of(t) == (TokenType::TargetMirror, false)
            && ml == ml2 && free == free2 + 1 && cp == cp2 && dm == dm2 && bs == bs2) || (piece_of(
            t,
        ) == (TokenType::Checkpoint, false) && ml == ml2 && free == free2 && cp == cp2 + 1 && dm
            == dm2 && bs == bs2) || (piece_of(t) == (TokenType::DoubleMirror, false) && ml == ml2
            && free == free2 && cp == cp2 && dm == dm2 + 1 && bs == bs2) || (piece_of(t) == (
        TokenType::BeamSplitter,
        false,
        ) && ml == ml2 && free == free2 && cp == cp2 && dm == dm2 && bs == bs2 + 1),
    ensures
        ordering_extends(w, prefix, ml, free, cp, dm, bs),
{
    reveal(ordering_extends);
    lemma_bag_pieces_push(prefix, t);
    assert(w.take(prefix.len() as int) =~= w.take((prefix.len() + 1) as int).take(
        prefix.len() as int,
    ));
    assert(prefix.push(t).take(prefix.len() as int) =~= prefix);
    assert(w.take((prefix.len() + 1) as int)[prefix.len() as int] == w[prefix.len() as int]);
    assert(w[prefix.len() as int] == t);
}

/// Builds every ordering the generator emits for the given category
/// counts, appending each to `unique_orderings` after the given prefix.
/// At least one ordering is always appended, and nothing already collected
/// is disturbed.
#[verifier::rlimit(100)]
#[verifier::spinoff_prover]
fn backtrack(
    n_target_mirrors_must_light: usize,
    n_target_mirrors_may_not_light: usize,
    n_checkpoints: usize,
    n_double_mirrors: usize,
    n_beam_splitters: usize,
    current_ordering: Vec<Token>,
    unique_orderings: &mut Vec<Vec<Token>>,
)
    requires
        bag_wf(current_ordering@),
    ensures
        final(unique_orderings)@.len() > old(unique_orderings)@.len(),
        final(unique_orderings)@.len() <= old(unique_orderings)@.len() + pow5(
            (n_target_mirrors_must_light + n_target_mirrors_may_not_light + n_checkpoints
                + n_double_mirrors + n_beam_splitters) as nat,
        ),
        final(unique_orderings)@.take(old(unique_orderings)@.len() as int) == old(
            unique_orderings,
        )@,
        orderings_distinct(
            final(unique_orderings)@,
            old(unique_orderings)@.len() as int,
            final(unique_orderings)@.len() as int,
        ),
        orderings_complete(
            final(unique_orderings)@,
            old(unique_orderings)@.len() as int,
            current_ordering@,
            n_target_mirrors_must_light as nat,
            n_target_mirrors_may_not_light as nat,
            n_checkpoints as nat,
            n_double_mirrors as nat,
            n_beam_splitters as nat,
        ),
        forall|k: int|
            old(unique_orderings)@.len() <= k < final(unique_orderings)@.len()
                ==> ordering_extends(
                (#[trigger] final(unique_orderings)@[k])@,
                current_ordering@,
                n_target_mirrors_must_light as nat,
                n_target_mirrors_may_not_light as nat,
                n_checkpoints as nat,
                n_double_mirrors as nat,
                n_beam_splitters as nat,
            ),
    decreases
            n_target_mirrors_must_light + n_target_mirrors_may_not_light + n_checkpoints
                + n_double_mirrors + n_beam_splitters,
            1int,
{
    let ghost ml = n_target_mirrors_must_light as nat;
    let ghost free = n_target_mirrors_may_not_light as nat;
    let ghost cp = n_checkpoints as nat;
    let ghost dm = n_double_mirrors as nat;
    let ghost bs = n_beam_splitters as nat;
    if n_target_mirrors_must_light == 0 && n_target_mirrors_may_not_light == 0 && n_checkpoints
        == 0 && n_double_mirrors == 0 && n_beam_splitters == 0 {
        proof {
            assert(current_ordering@.take(current_ordering@.len() as int) =~= current_ordering@);
            assert(ordering_extends(current_ordering@, current_ordering@, 0, 0, 0, 0, 0)) by {
                reveal(ordering_extends);
            }
        }
        let ghost before = unique_orderings@;
        unique_orderings.push(current_ordering);
        proof {
            assert(unique_orderings@.take(before.len() as int) =~= before);
            lemma_cc_base(unique_orderings@, before.len() as int, current_ordering@);
        }
        return ;
    }
    let ghost before = unique_orderings@;
    let ghost mut tags: Seq<Token> = Seq::<Token>::empty();
    proof {
        let sum = (n_target_mirrors_must_light + n_target_mirrors_may_not_light + n_checkpoints
            + n_double_mirrors + n_beam_splitters) as nat;
        assert(sum >= 1);
        assert(pow5(sum) == 5 * pow5((sum - 1) as nat));
        lemma_pow5_monotone(0, (sum - 1) as nat);
        assert(unique_orderings@.take(before.len() as int) =~= before);
    }
    let ghost pre1 = unique_orderings@;
    let t1 = Token::new(TokenType::TargetMirror, None, true);
    if n_target_mirrors_must_light > 0 {
        backtrack_branch(
            t1,
            n_target_mirrors_must_light - 1,
            n_target_mirrors_may_not_light,
            n_checkpoints,
            n_double_mirrors,
            n_beam_splitters,
            &current_ordering,
            unique_orderings,
            Ghost(before),
            Ghost((ml, free, cp, dm, bs)),
        );
        proof {
            assert(!tags.contains(t1)) by {
                if tags.contains(t1) {
                    let j = choose|j: int| 0 <= j < tags.len() && tags[j] == t1;
                }
            }
            lemma_distinct_windows_merge(
                pre1,
                unique_orderings@,
                before.len() as int,
                current_ordering@.len() as int,
                t1,
                tags,
            );
            tags = tags.push(t1);
        }
    }
    proof {
        assert(unique_orderings@.take(pre1.len() as int) =~= pre1);
        assert(t1 == minted_token(TokenType::TargetMirror, true));
        if n_target_mirrors_must_light > 0 {
            lemma_class_covered_widen(unique_orderings@, pre1.len() as int,
                before.len() as int, current_ordering@, ml, free, cp, dm, bs, 0int);
        } else {
            lemma_class_covered_empty(unique_orderings@, before.len() as int,
                current_ordering@, ml, free, cp, dm, bs, 0int);
        }
    }
    let ghost pre2 = unique_orderings@;
    let t2 = Token::new(TokenType::TargetMirror, None, false);
    if n_target_mirrors_may_not_light > 0 {
        backtrack_branch(
            t2,
            n_target_mirrors_must_light,
            n_target_mirrors_may_not_light - 1,
            n_checkpoints,
            n_double_mirrors,
            n_beam_splitters,
            &current_ordering,
            unique_orderings,
            Ghost(before),
            Ghost((ml, free, cp, dm, bs)),
        );
        proof {
            assert(!tags.contains(t2)) by {
                if tags.contains(t2) {
                    let j = choose|j: int| 0 <= j < tags.len() && tags[j] == t2;
                }
            }
            lemma_distinct_windows_merge(
                pre2,
                unique_orderings@,
                before.len() as int,
                current_ordering@.len() as int,
                t2,
                tags,
            );
            tags = tags.push(t2);
        }
    }
    proof {
        assert(unique_orderings@.take(pre2.len() as int) =~= pre2);
        assert(t2 == minted_token(TokenType::TargetMirror, false));
        if n_target_mirrors_may_not_light > 0 {
            lemma_class_covered_widen(unique_orderings@, pre2.len() as int,
                before.len() as int, current_ordering@, ml, free, cp, dm, bs, 1int);
        } else {
            lemma_class_covered_empty(unique_orderings@, before.len() as int,
                current_ordering@, ml, free, cp, dm, bs, 1int);
        }
        lemma_class_covered_persist(pre2, unique_orderings@, before.len() as int,
            current_ordering@, ml, free, cp, dm, bs, 0int);
    }
    let ghost pre3 = unique_orderings@;
    let t3 = Token::new(TokenType::Checkpoint, None, false);
    if n_checkpoints > 0 {
        backtrack_branch(
            t3,
            n_target_mirrors_must_light,
            n_target_mirrors_may_not_light,
            n_checkpoints - 1,
            n_double_mirrors,
            n_beam_splitters,
            &current_ordering,
            unique_orderings,
            Ghost(before),
            Ghost((ml, free, cp, dm, bs)),
        );
        proof {
            assert(!tags.contains(t3)) by {
                if tags.contains(t3) {
                    let j = choose|j: int| 0 <= j < tags.len() && tags[j] == t3;
                }
            }
            lemma_distinct_windows_merge(
                pre3,
                unique_orderings@,
                before.len() as int,
                current_ordering@.len() as int,
                t3,
                tags,
            );
            tags = tags.push(t3);
        }
    }
    proof {
        assert(unique_orderings@.take(pre3.len() as int) =~= pre3);
        assert(t3 == minted_token(TokenType::Checkpoint, false));
        if n_checkpoints > 0 {
            lemma_class_covered_widen(unique_orderings@, pre3.len() as int,
                before.len() as int, current_ordering@, ml, free, cp, dm, bs, 2int);
        } else {
            lemma_class_covered_empty(unique_orderings@, before.len() as int,
                current_ordering@, ml, free, cp, dm, bs, 2int);
        }
        lemma_class_covered_persist(pre3, unique_orderings@, before.len() as int,
            current_ordering@, ml, free, cp, dm, bs, 0int);
        lemma_class_covered_persist(pre3, unique_orderings@, before.len() as int,
            current_ordering@, ml, free, cp, dm, bs, 1int);
    }
    let ghost pre4 = unique_orderings@;
    let t4 = Token::new(TokenType::DoubleMirror, None, false);
    if n_double_mirrors > 0 {
        backtrack_branch(
            t4,
            n_target_mirrors_must_light,
            n_target_mirrors_may_not_light,
            n_checkpoints,
            n_double_mirrors - 1,
            n_beam_splitters,
            &current_ordering,
            unique_orderings,
            Ghost(before),
            Ghost((ml, free, cp, dm, bs)),
        );
        proof {
            assert(!tags.contains(t4)) by {
                if tags.contains(t4) {
                    let j = choose|j: int| 0 <= j < tags.len() && tags[j] == t4;
                }
            }
            lemma_distinct_windows_merge(
                pre4,
                unique_orderings@,
                before.len() as int,
                current_ordering@.len() as int,
                t4,
                tags,
            );
            tags = tags.push(t4);
        }
    }
    proof {
        assert(unique_orderings@.take(pre4.len() as int) =~= pre4);
        assert(t4 == minted_token(TokenType::DoubleMirror, false));
        if n_double_mirrors > 0 {
            lemma_class_covered_widen(unique_orderings@, pre4.len() as int,
                before.len() as int, current_ordering@, ml, free, cp, dm, bs, 3int);
        } else {
            lemma_class_covered_empty(unique_orderings@, before.len() as int,
                current_ordering@, ml, free, cp, dm, bs, 3int);
        }
        lemma_class_covered_persist(pre4, unique_orderings@, before.len() as int,
            current_ordering@, ml, free, cp, dm, bs, 0int);
        lemma_class_covered_persist(pre4, unique_orderings@, before.len() as int,
            current_ordering@, ml, free, cp, dm, bs, 1int);
        lemma_class_covered_persist(pre4, unique_orderings@, before.len() as int,
            current_ordering@, ml, free, cp, dm, bs, 2int);
    }
    let ghost pre5 = unique_orderings@;
    let t5 = Token::new(TokenType::BeamSplitter, None, false);
    if n_beam_splitters > 0 {
        backtrack_branch(
            t5,
            n_target_mirrors_must_light,
            n_target_mirrors_may_not_light,
            n_checkpoints,
            n_double_mirrors,
            n_beam_splitters - 1,
            &current_ordering,
            unique_orderings,
            Ghost(before),
            Ghost((ml, free, cp, dm, bs)),
        );
        proof {
            assert(!tags.contains(t5)) by {
                if tags.contains(t5) {
                    let j = choose|j: int| 0 <= j < tags.len() && tags[j] == t5;
                }
            }
            lemma_distinct_windows_merge(
                pre5,
                unique_orderings@,
                before.len() as int,
                current_ordering@.len() as int,
                t5,
                tags,
            );
            tags = tags.push(t5);
        }
    }
    proof {
        assert(unique_orderings@.take(pre5.len() as int) =~= pre5);
        assert(t5 == minted_token(TokenType::BeamSplitter, false));
        if n_beam_splitters > 0 {
            lemma_class_covered_widen(unique_orderings@, pre5.len() as int,
                before.len() as int, current_ordering@, ml, free, cp, dm, bs, 4int);
        } else {
            lemma_class_covered_empty(unique_orderings@, before.len() as int,
                current_ordering@, ml, free, cp, dm, bs, 4int);
        }
        lemma_class_covered_persist(pre5, unique_orderings@, before.len() as int,
            current_ordering@, ml, free, cp, dm, bs, 0int);
        lemma_class_covered_persist(pre5, unique_orderings@, before.len() as int,
            current_ordering@, ml, free, cp, dm, bs, 1int);
        lemma_class_covered_persist(pre5, unique_orderings@, before.len() as int,
            current_ordering@, ml, free, cp, dm, bs, 2int);
        lemma_class_covered_persist(pre5, unique_orderings@, before.len() as int,
            current_ordering@, ml, free, cp, dm, bs, 3int);
    }
    proof {
        lemma_cc_finish(unique_orderings@, before.len() as int, current_ordering@, ml, free, cp,
            dm, bs);
    }

}

/// One branch of the generator, folded into the window of orderings
/// collected so far: after it, every ordering from `base` onward extends
/// the prefix by the undecremented counts.
fn backtrack_branch(
    t: Token,
    ml2: usize,
    free2: usize,
    cp2: usize,
    dm2: usize,
    bs2: usize,
    current_ordering: &Vec<Token>,
    unique_orderings: &mut Vec<Vec<Token>>,
    Ghost(base): Ghost<Seq<Vec<Token>>>,
    Ghost(full): Ghost<(nat, nat, nat, nat, nat)>,
)
    requires
        bag_wf(current_ordering@),
        token_wf(t),
        token_pristine(t),
        t.orientation is None,
        (piece_of(t) == (TokenType::TargetMirror, true) && full.0 == ml2 + 1 && full.1 == free2
            && full.2 == cp2 && full.3 == dm2 && full.4 == bs2) || (piece_of(t) == (
            TokenType::TargetMirror,
            false,
        ) && full.0 == ml2 && full.1 == free2 + 1 && full.2 == cp2 && full.3 == dm2 && full.4
            == bs2) || (piece_of(t) == (TokenType::Checkpoint, false) && full.0 == ml2 && full.1
            == free2 && full.2 == cp2 + 1 && full.3 == dm2 && full.4 == bs2) || (piece_of(t) == (
            TokenType::DoubleMirror,
            false,
        ) && full.0 == ml2 && full.1 == free2 && full.2 == cp2 && full.3 == dm2 + 1 && full.4
            == bs2) || (piece_of(t) == (TokenType::BeamSplitter, false) && full.0 == ml2 && full.1
            == free2 && full.2 == cp2 && full.3 == dm2 && full.4 == bs2 + 1),
        base.len() <= old(unique_orderings)@.len(),
        old(unique_orderings)@.take(base.len() as int) == base,
        forall|k: int|
            base.len() <= k < old(unique_orderings)@.len() ==> ordering_extends(
                (#[trigger] old(unique_orderings)@[k])@,
                current_ordering@,
                full.0,
                full.1,
                full.2,
                full.3,
                full.4,
            ),
    ensures
        final(unique_orderings)@.len() > old(unique_orderings)@.len(),
        final(unique_orderings)@.len() <= old(unique_orderings)@.len() + pow5(
            (ml2 + free2 + cp2 + dm2 + bs2) as nat,
        ),
        final(unique_orderings)@.take(base.len() as int) == base,
        final(unique_orderings)@.take(old(unique_orderings)@.len() as int) == old(
            unique_orderings,
        )@,
        orderings_distinct(
            final(unique_orderings)@,
            old(unique_orderings)@.len() as int,
            final(unique_orderings)@.len() as int,
        ),
        ({
            let whichc = if piece_of(t) == (TokenType::TargetMirror, true) {
                0int
            } else if piece_of(t) == (TokenType::TargetMirror, false) {
                1int
            } else if piece_of(t) == (TokenType::Checkpoint, false) {
                2int
            } else if piece_of(t) == (TokenType::DoubleMirror, false) {
                3int
            } else {
                4int
            };
            class_covered(
                final(unique_orderings)@,
                old(unique_orderings)@.len() as int,
                current_ordering@,
                full.0,
                full.1,
                full.2,
                full.3,
                full.4,
                whichc,
            )
        }),
        forall|k: int|
            old(unique_orderings)@.len() <= k < final(unique_orderings)@.len() ==> ((
            #[trigger] final(unique_orderings)@[k])@.len() > current_ordering@.len()
                && final(unique_orderings)@[k]@[current_ordering@.len() as int] == t),
        forall|k: int|
            base.len() <= k < final(unique_orderings)@.len() ==> ordering_extends(
                (#[trigger] final(unique_orderings)@[k])@,
                current_ordering@,
                full.0,
                full.1,
                full.2,
                full.3,
                full.4,
            ),
    decreases ml2 + free2 + cp2 + dm2 + bs2, 3int,
{
    let mut new_ordering = copy_tokens(current_ordering);
    new_ordering.push(t);
    proof {
        lemma_bag_wf_push(current_ordering@, t);
    }
    let ghost pre = unique_orderings@;
    backtrack(ml2, free2, cp2, dm2, bs2, new_ordering, unique_orderings);
    proof {
        absorb_window(
            unique_orderings@,
            pre.len() as int,
            current_ordering@,
            t,
            full.0,
            full.1,
            full.2,
            full.3,
            full.4,
            ml2 as nat,
            free2 as nat,
            cp2 as nat,
            dm2 as nat,
            bs2 as nat,
        );
        lemma_window_merge(
            pre,
            unique_orderings@,
            base.len() as int,
            current_ordering@,
            full.0,
            full.1,
            full.2,
            full.3,
            full.4,
        );
        assert(unique_orderings@.take(base.len() as int) =~= pre.take(base.len() as int));
        let whichc = if piece_of(t) == (TokenType::TargetMirror, true) {
            0int
        } else if piece_of(t) == (TokenType::TargetMirror, false) {
            1int
        } else if piece_of(t) == (TokenType::Checkpoint, false) {
            2int
        } else if piece_of(t) == (TokenType::DoubleMirror, false) {
            3int
        } else {
            4int
        };
        lemma_minted_determined(t);
        lemma_complete_to_class(
            unique_orderings@,
            pre.len() as int,
            current_ordering@,
            t,
            full.0,
            full.1,
            full.2,
            full.3,
            full.4,
            whichc,
        );
        let pos = current_ordering@.len() as int;
        assert forall|k: int| pre.len() <= k < unique_orderings@.len() implies ((
        #[trigger] unique_orderings@[k])@.len() > pos && unique_orderings@[k]@[pos] == t) by {
            reveal(ordering_extends);
            assert(ordering_extends(
                unique_orderings@[k]@,
                new_ordering@,
                ml2 as nat,
                free2 as nat,
                cp2 as nat,
                dm2 as nat,
                bs2 as nat,
            ));
            assert(unique_orderings@[k]@.take(new_ordering@.len() as int) == new_ordering@);
            assert(unique_orderings@[k]@.take(new_ordering@.len() as int)[pos]
                == unique_orderings@[k]@[pos]);
        }
    }
}

/// Every ordering for the given counts after `prefix` appears in
/// `out[base..]`.
#[verifier::opaque]
pub open spec fn orderings_complete(
    out: Seq<Vec<Token>>,
    base: int,
    prefix: Seq<Token>,
    ml: nat,
    free: nat,
    cp: nat,
    dm: nat,
    bs: nat,
) -> bool {
    forall|w: Seq<Token>|
        #[trigger] ordering_extends(w, prefix, ml, free, cp, dm, bs) ==> exists|k: int|
            base <= k < out.len() && ((#[trigger] out[k])@ == w)
}

/// Every ordering for the given counts whose first added token is the
/// minted token of category `which` appears in `out[base..]`.
#[verifier::opaque]
pub open spec fn class_covered(
    out: Seq<Vec<Token>>,
    base: int,
    prefix: Seq<Token>,
    ml: nat,
    free: nat,
    cp: nat,
    dm: nat,
    bs: nat,
    which: int,
) -> bool {
    if which == 0 {
        ml >= 1 ==> forall|w: Seq<Token>|
            #[trigger] ordering_extends(
                w,
                prefix.push(minted_token(TokenType::TargetMirror, true)),
                (ml - 1) as nat,
                free,
                cp,
                dm,
                bs,
            ) ==> exists|k: int| base <= k < out.len() && ((#[trigger] out[k])@ == w)
    } else if which == 1 {
        free >= 1 ==> forall|w: Seq<Token>|
            #[trigger] ordering_extends(
                w,
                prefix.push(minted_token(TokenType::TargetMirror, false)),
                ml,
                (free - 1) as nat,
                cp,
                dm,
                bs,
            ) ==> exists|k: int| base <= k < out.len() && ((#[trigger] out[k])@ == w)
    } else if which == 2 {
        cp >= 1 ==> forall|w: Seq<Token>|
            #[trigger] ordering_extends(
                w,
                prefix.push(minted_token(TokenType::Checkpoint, false)),
                ml,
                free,
                (cp - 1) as nat,
                dm,
                bs,
            ) ==> exists|k: int| base <= k < out.len() && ((#[trigger] out[k])@ == w)
    } else if which == 3 {
        dm >= 1 ==> forall|w: Seq<Token>|
            #[trigger] ordering_extends(
                w,
                prefix.push(minted_token(TokenType::DoubleMirror, false)),
                ml,
                free,
                cp,
                (dm - 1) as nat,
                bs,
            ) ==> exists|k: int| base <= k < out.len() && ((#[trigger] out[k])@ == w)
    } else {
        bs >= 1 ==> forall|w: Seq<Token>|
            #[trigger] ordering_extends(
                w,
                prefix.push(minted_token(TokenType::BeamSplitter, false)),
                ml,
                free,
                cp,
                dm,
                (bs - 1) as nat,
            ) ==> exists|k: int| base <= k < out.len() && ((#[trigger] out[k])@ == w)
    }
}

/// With no pieces left to add, the only ordering is the prefix itself.
proof fn lemma_cc_base(out: Seq<Vec<Token>>, base: int, prefix: Seq<Token>)
    requires
        0 <= base,
        out.len() == base + 1,
        (out[base])@ == prefix,
    ensures
        orderings_complete(out, base, prefix, 0, 0, 0, 0, 0),
        orderings_distinct(out, base, out.len() as int),
{
    reveal(orderings_complete);
    assert forall|w: Seq<Token>| #[trigger] ordering_extends(w, prefix, 0, 0, 0, 0, 0)
        implies exists|k: int| base <= k < out.len() && ((#[trigger] out[k])@ == w) by {
        assert(w.take(prefix.len() as int) == prefix) by {
            reveal(ordering_extends);
        }
        assert(w.len() == prefix.len()) by {
            reveal(ordering_extends);
        }
        assert(w.take(w.len() as int) =~= w);
        assert((out[base])@ == w);
    }
}

/// Appending more orderings keeps every category covered.
proof fn lemma_class_covered_persist(
    out0: Seq<Vec<Token>>,
    out1: Seq<Vec<Token>>,
    base: int,
    prefix: Seq<Token>,
    ml: nat,
    free: nat,
    cp: nat,
    dm: nat,
    bs: nat,
    which: int,
)
    requires
        0 <= base <= out0.len() <= out1.len(),
        out1.take(out0.len() as int) == out0,
        class_covered(out0, base, prefix, ml, free, cp, dm, bs, which),
    ensures
        class_covered(out1, base, prefix, ml, free, cp, dm, bs, which),
{
    reveal(class_covered);
    lemma_window_elements_persist(out0, out1);
}

/// A window of coverage widens to any earlier base.
proof fn lemma_class_covered_widen(
    out: Seq<Vec<Token>>,
    base0: int,
    base1: int,
    prefix: Seq<Token>,
    ml: nat,
    free: nat,
    cp: nat,
    dm: nat,
    bs: nat,
    which: int,
)
    requires
        base1 <= base0,
        class_covered(out, base0, prefix, ml, free, cp, dm, bs, which),
    ensures
        class_covered(out, base1, prefix, ml, free, cp, dm, bs, which),
{
    reveal(class_covered);
}

/// A vacuous category (count zero) is covered by any window.
proof fn lemma_class_covered_empty(
    out: Seq<Vec<Token>>,
    base: int,
    prefix: Seq<Token>,
    ml: nat,
    free: nat,
    cp: nat,
    dm: nat,
    bs: nat,
    which: int,
)
    requires
        which == 0 ==> ml == 0,
        which == 1 ==> free == 0,
        which == 2 ==> cp == 0,
        which == 3 ==> dm == 0,
        (which != 0 && which != 1 && which != 2 && which != 3) ==> bs == 0,
    ensures
        class_covered(out, base, prefix, ml, free, cp, dm, bs, which),
{
    reveal(class_covered);
}

/// Assembles per-category coverage into coverage of every ordering for the
/// given counts: the first added token always belongs to one category.
proof fn lemma_cc_finish(
    out: Seq<Vec<Token>>,
    base: int,
    prefix: Seq<Token>,
    ml: nat,
    free: nat,
    cp: nat,
    dm: nat,
    bs: nat,
)
    requires
        ml + free + cp + dm + bs >= 1,
        class_covered(out, base, prefix, ml, free, cp, dm, bs, 0),
        class_covered(out, base, prefix, ml, free, cp, dm, bs, 1),
        class_covered(out, base, prefix, ml, free, cp, dm, bs, 2),
        class_covered(out, base, prefix, ml, free, cp, dm, bs, 3),
        class_covered(out, base, prefix, ml, free, cp, dm, bs, 4),
    ensures
        orderings_complete(out, base, prefix, ml, free, cp, dm, bs),
{
    reveal(orderings_complete);
    reveal(class_covered);
    assert forall|w: Seq<Token>| #[trigger] ordering_extends(w, prefix, ml, free, cp, dm, bs)
        implies exists|k: int| base <= k < out.len() && ((#[trigger] out[k])@ == w) by {
        lemma_first_added(w, prefix, ml, free, cp, dm, bs);
    }
}

/// The orderings a branch collects cover its category.
proof fn lemma_complete_to_class(
    out: Seq<Vec<Token>>,
    base: int,
    prefix: Seq<Token>,
    t: Token,
    ml: nat,
    free: nat,
    cp: nat,
    dm: nat,
    bs: nat,
    which: int,
)
    requires
        (which == 0 && t == minted_token(TokenType::TargetMirror, true) && ml >= 1
            && orderings_complete(out, base, prefix.push(t), (ml - 1) as nat, free, cp, dm, bs))
            || (which == 1 && t == minted_token(TokenType::TargetMirror, false) && free >= 1
            && orderings_complete(out, base, prefix.push(t), ml, (free - 1) as nat, cp, dm, bs))
            || (which == 2 && t == minted_token(TokenType::Checkpoint, false) && cp >= 1
            && orderings_complete(out, base, prefix.push(t), ml, free, (cp - 1) as nat, dm, bs))
            || (which == 3 && t == minted_token(TokenType::DoubleMirror, false) && dm >= 1
            && orderings_complete(out, base, prefix.push(t), ml, free, cp, (dm - 1) as nat, bs))
            || (which == 4 && t == minted_token(TokenType::BeamSplitter, false) && bs >= 1
            && orderings_complete(out, base, prefix.push(t), ml, free, cp, dm, (bs - 1) as nat)),
    ensures
        class_covered(out, base, prefix, ml, free, cp, dm, bs, which),
{
    reveal(orderings_complete);
    reveal(class_covered);
}

/// Growing a collection by appending leaves every element in place.
proof fn lemma_window_elements_persist(out0: Seq<Vec<Token>>, out1: Seq<Vec<Token>>)
    requires
        out0.len() <= out1.len(),
        out1.take(out0.len() as int) == out0,
    ensures
        forall|k: int| 0 <= k < out0.len() ==> #[trigger] out1[k] == out0[k],
{
    assert forall|k: int| 0 <= k < out0.len() implies #[trigger] out1[k] == out0[k] by {
        assert(out1.take(out0.len() as int)[k] == out1[k]);
    }
}

/// A prefix of a bag holds no more pieces of any identity than the whole
/// bag.
proof fn lemma_bag_pieces_take_le(ts: Seq<Token>, m: int)
    requires
        0 <= m <= ts.len(),
    ensures
        forall|p: (TokenType, bool)|
            #[trigger] bag_pieces(ts.take(m)).count(p) <= bag_pieces(ts).count(p),
    decreases ts.len(),
{
    if m == ts.len() {
        assert(ts.take(m) =~= ts);
    } else {
        assert(ts.drop_last().take(m) =~= ts.take(m));
        lemma_bag_pieces_take_le(ts.drop_last(), m);
    }
}

/// An unrotated, well-formed, construction-fresh token that is neither a
/// laser nor a cell blocker is exactly the token the generator mints for
/// its identity.
proof fn lemma_minted_determined(e: Token)
    requires
        token_wf(e),
        token_pristine(e),
        e.orientation is None,
        e.type_ != TokenType::Laser,
        e.type_ != TokenType::CellBlocker,
    ensures
        e == minted_token(e.type_, e.must_light),
{
}

/// The first token an ordering adds beyond its prefix is a minted token of
/// one of the five counted categories with a positive count, and the rest
/// of the ordering extends the longer prefix with that category
/// decremented.
proof fn lemma_first_added(w: Seq<Token>, prefix: Seq<Token>, ml: nat, free: nat, cp: nat, dm: nat, bs: nat)
    requires
        ordering_extends(w, prefix, ml, free, cp, dm, bs),
        ml + free + cp + dm + bs >= 1,
    ensures
        ({
            let e = w[prefix.len() as int];
            ||| (ml >= 1 && e == minted_token(TokenType::TargetMirror, true) && ordering_extends(
                w,
                prefix.push(e),
                (ml - 1) as nat,
                free,
                cp,
                dm,
                bs,
            ))
            ||| (free >= 1 && e == minted_token(TokenType::TargetMirror, false)
                && ordering_extends(w, prefix.push(e), ml, (free - 1) as nat, cp, dm, bs))
            ||| (cp >= 1 && e == minted_token(TokenType::Checkpoint, false) && ordering_extends(
                w,
                prefix.push(e),
                ml,
                free,
                (cp - 1) as nat,
                dm,
                bs,
            ))
            ||| (dm >= 1 && e == minted_token(TokenType::DoubleMirror, false) && ordering_extends(
                w,
                prefix.push(e),
                ml,
                free,
                cp,
                (dm - 1) as nat,
                bs,
            ))
            ||| (bs >= 1 && e == minted_token(TokenType::BeamSplitter, false) && ordering_extends(
                w,
                prefix.push(e),
                ml,
                free,
                cp,
                dm,
                (bs - 1) as nat,
            ))
        }),
{
    reveal(ordering_extends);
    let l = prefix.len() as int;
    let e = w[l];
    let pe = piece_of(e);
    assert forall|j: int| 0 <= j < l + 1 implies w.take(l + 1)[j] == prefix.push(e)[j] by {
        if j < l {
            assert(w.take(l as int)[j] == prefix[j]);
        }
    }
    assert(w.take(l + 1) =~= prefix.push(e));
    lemma_bag_pieces_push(prefix, e);
    lemma_bag_pieces_take_le(w, l + 1);
    assert(bag_pieces(w.take(l + 1)).count(pe) == bag_pieces(prefix).count(pe) + 1);
    assert(bag_pieces(w).count(pe) >= bag_pieces(prefix).count(pe) + 1);
    assert(token_wf(e) && token_pristine(e));
    assert(e.orientation is None);
    if pe != (TokenType::TargetMirror, true) && pe != (TokenType::TargetMirror, false) && pe != (
    TokenType::Checkpoint,
    false,
    ) && pe != (TokenType::DoubleMirror, false) && pe != (TokenType::BeamSplitter, false) {
        assert(bag_pieces(w).count(pe) == bag_pieces(prefix).count(pe));
        assert(false);
    }
    lemma_minted_determined(e);
    assert(e == minted_token(e.type_, e.must_light));
    assert forall|j: int|
        0 <= j < prefix.push(e).len() implies w.take(prefix.push(e).len() as int)[j]
        == prefix.push(e)[j] by {}
    assert(w.take(prefix.push(e).len() as int) =~= prefix.push(e));
}

/// Joins the distinctness of two consecutive windows: the newer window's
/// orderings all carry the fresh tag token at `pos`, which no ordering of
/// the older window carries there.
proof fn lemma_distinct_windows_merge(
    out0: Seq<Vec<Token>>,
    out1: Seq<Vec<Token>>,
    base: int,
    pos: int,
    t: Token,
    tags: Seq<Token>,
)
    requires
        0 <= base <= out0.len() <= out1.len(),
        out1.take(out0.len() as int) == out0,
        orderings_distinct(out0, base, out0.len() as int),
        orderings_distinct(out1, out0.len() as int, out1.len() as int),
        forall|k: int|
            base <= k < out0.len() ==> ((#[trigger] out0[k])@.len() > pos && tags.contains(
                out0[k]@[pos],
            )),
        !tags.contains(t),
        forall|k: int|
            out0.len() <= k < out1.len() ==> ((#[trigger] out1[k])@.len() > pos && out1[k]@[pos]
                == t),
    ensures
        orderings_distinct(out1, base, out1.len() as int),
        forall|k: int|
            base <= k < out1.len() ==> ((#[trigger] out1[k])@.len() > pos && tags.push(t).contains(
                out1[k]@[pos],
            )),
{
    assert forall|k: int| 0 <= k < out0.len() implies out1[k] == out0[k] by {
        assert(out1.take(out0.len() as int)[k] == out1[k]);
    }
    assert forall|k1: int, k2: int| base <= k1 < k2 < out1.len() implies (#[trigger] out1[k1])@
        != (#[trigger] out1[k2])@ by {
        if k2 < out0.len() {
            assert(out0[k1]@ != out0[k2]@);
        } else if k1 >= out0.len() {
        } else {
            assert(tags.contains(out0[k1]@[pos]));
            assert(out1[k1]@[pos] != t);
            assert(out1[k2]@[pos] == t);
        }
    }
    assert forall|k: int| base <= k < out1.len() implies ((#[trigger] out1[k])@.len() > pos
        && tags.push(t).contains(out1[k]@[pos])) by {
        if k < out0.len() {
            let j = choose|j: int| 0 <= j < tags.len() && tags[j] == out0[k]@[pos];
            assert(tags.push(t)[j] == out0[k]@[pos]);
        } else {
            assert(tags.push(t)[tags.len() as int] == t);
        }
    }
}

/// Joins two consecutive windows of collected orderings for the same
/// prefix and counts.
proof fn lemma_window_merge(
    out0: Seq<Vec<Token>>,
    out1: Seq<Vec<Token>>,
    base: int,
    prefix: Seq<Token>,
    ml: nat,
    free: nat,
    cp: nat,
    dm: nat,
    bs: nat,
)
    requires
        0 <= base <= out0.len() <= out1.len(),
        out1.take(out0.len() as int) == out0,
        forall|k: int|
            base <= k < out0.len() ==> ordering_extends(
                (#[trigger] out0[k])@,
                prefix,
                ml,
                free,
                cp,
                dm,
                bs,
            ),
        forall|k: int|
            out0.len() <= k < out1.len() ==> ordering_extends(
                (#[trigger] out1[k])@,
                prefix,
                ml,
                free,
                cp,
                dm,
                bs,
            ),
    ensures
        forall|k: int|
            base <= k < out1.len() ==> ordering_extends(
                (#[trigger] out1[k])@,
                prefix,
                ml,
                free,
                cp,
                dm,
                bs,
            ),
        out1.take(base) == out0.take(base),
{
    assert forall|k: int| base <= k < out1.len() implies ordering_extends(
        (#[trigger] out1[k])@,
        prefix,
        ml,
        free,
        cp,
        dm,
        bs,
    ) by {
        if k < out0.len() {
            assert(out1.take(out0.len() as int)[k] == out1[k]);
            assert(out1[k] == out0[k]);
        }
    }
    assert(out1.take(base) =~= out0.take(base));
}

/// An ordering emitted for the category counts of a bag holds exactly the
/// bag's pieces.
proof fn lemma_ordering_matches_bag(w: Seq<Token>, bag: Seq<Token>)
    requires
        bag_wf(bag),
        bag_count_type(bag, TokenType::Laser) == 0,
        bag_count_type(bag, TokenType::CellBlocker) == 0,
        bag_count_must_light(bag) <= bag_count_type(bag, TokenType::TargetMirror),
        ordering_extends(
            w,
            Seq::<Token>::empty(),
            bag_count_must_light(bag) as nat,
            (bag_count_type(bag, TokenType::TargetMirror) - bag_count_must_light(bag)) as nat,
            bag_count_type(bag, TokenType::Checkpoint) as nat,
            bag_count_type(bag, TokenType::DoubleMirror) as nat,
            bag_count_type(bag, TokenType::BeamSplitter) as nat,
        ),
    ensures
        bag_pieces(w) =~= bag_pieces(bag),
        bag_wf(w),
        bag_count_type(w, TokenType::Laser) == 0,
        bag_count_type(w, TokenType::CellBlocker) == 0,
{
    reveal(ordering_extends);
    lemma_bag_counts(bag);
    lemma_bag_counts(w);
    assert(bag_pieces(Seq::<Token>::empty()) == Multiset::<(TokenType, bool)>::empty());
    assert forall|p: (TokenType, bool)| bag_pieces(w).count(p) == bag_pieces(bag).count(p) by {
        if p != (TokenType::TargetMirror, true) && p != (TokenType::TargetMirror, false) && p != (
        TokenType::Checkpoint,
        false,
        ) && p != (TokenType::DoubleMirror, false) && p != (TokenType::BeamSplitter, false) {
            assert(bag_pieces(w).count(p) == 0);
            if p.1 {
                assert(bag_pieces(bag).count(p) == 0);
            } else {
                assert(bag_count_type(bag, p.0) == 0);
                assert(bag_pieces(bag).count((p.0, false)) + bag_pieces(bag).count((p.0, true))
                    == 0);
            }
        }
    }
}

/// Appending a well-formed, construction-fresh token keeps a bag well
/// formed.
proof fn lemma_bag_wf_push(ts: Seq<Token>, t: Token)
    requires
        bag_wf(ts),
        token_wf(t),
        token_pristine(t),
    ensures
        bag_wf(ts.push(t)),
{
    assert forall|i: int|
        0 <= i < ts.push(t).len() implies token_wf(#[trigger] ts.push(t)[i]) && token_pristine(
        ts.push(t)[i],
    ) by {
        if i < ts.len() {
            assert(ts.push(t)[i] == ts[i]);
        }
    }
}

/// Orderings collected for the longer prefix with one category decremented
/// are orderings for the shorter prefix with the original counts.
proof fn absorb_window(
    out: Seq<Vec<Token>>,
    lo: int,
    prefix: Seq<Token>,
    t: Token,
    ml: nat,
    free: nat,
    cp: nat,
    dm: nat,
    bs: nat,
    ml2: nat,
    free2: nat,
    cp2: nat,
    dm2: nat,
    bs2: nat,
)
    requires
        forall|k: int|
            lo <= k < out.len() ==> ordering_extends(
                (#[trigger] out[k])@,
                prefix.push(t),
                ml2,
                free2,
                cp2,
                dm2,
                bs2,
            ),
        t.orientation is None,
        ml + free + cp + dm + bs == ml2 + free2 + cp2 + dm2 + bs2 + 1,
        (piece_of(t) == (TokenType::TargetMirror, true) && ml == ml2 + 1 && free == free2 && cp
            == cp2 && dm == dm2 && bs == bs2) || (piece_of(t) == (TokenType::TargetMirror, false)
            && ml == ml2 && free == free2 + 1 && cp == cp2 && dm == dm2 && bs == bs2) || (piece_of(
            t,
        ) == (TokenType::Checkpoint, false) && ml == ml2 && free == free2 && cp == cp2 + 1 && dm
            == dm2 && bs == bs2) || (piece_of(t) == (TokenType::DoubleMirror, false) && ml == ml2
            && free == free2 && cp == cp2 && dm == dm2 + 1 && bs == bs2) || (piece_of(t) == (
        TokenType::BeamSplitter,
        false,
        ) && ml == ml2 && free == free2 && cp == cp2 && dm == dm2 && bs == bs2 + 1),
    ensures
        forall|k: int|
            lo <= k < out.len() ==> ordering_extends(
                (#[trigger] out[k])@,
                prefix,
                ml,
                free,
                cp,
                dm,
                bs,
            ),
{
    assert forall|k: int| lo <= k < out.len() implies ordering_extends(
        (#[trigger] out[k])@,
        prefix,
        ml,
        free,
        cp,
        dm,
        bs,
    ) by {
        lemma_ordering_extends_absorb(
            out[k]@,
            prefix,
            t,
            ml,
            free,
            cp,
            dm,
            bs,
            ml2,
            free2,
            cp2,
            dm2,
            bs2,
        );
    }
}

impl SolverNode {
    /// Children that commit to one ordering of the unordered bag: each
    /// child carries the same pieces, with the bag emptied into its ordered
    /// counterpart.  There is always at least one child.
    pub(crate) fn generate_shuffled_tokens_to_be_added_branches(&mut self) -> (r: Vec<SolverNode>)
        requires
            old(self).inv(),
            bag_count_type(old(self).tokens_to_be_added@, TokenType::Laser) == 0,
            old(self).tokens_to_be_added@.len() >= 1,
            old(self).tokens_to_be_added_shuffled@.len() == 0,
        ensures
            r@.len() >= 1,
            r@.len() <= pow5(old(self).tokens_to_be_added@.len() as nat),
            forall|k: int| 0 <= k < r@.len() ==> branch_of(#[trigger] r@[k], *old(self)),
            forall|k: int|
                0 <= k < r@.len() ==> node_weight(#[trigger] r@[k]) < node_weight(*old(self)),
            forall|k1: int, k2: int|
                0 <= k1 < k2 < r@.len() ==> (#[trigger] r@[k1]).tokens_to_be_added_shuffled@ != (
                #[trigger] r@[k2]).tokens_to_be_added_shuffled@,
            forall|w: Seq<Token>|
                #[trigger] ordering_extends(
                    w,
                    Seq::<Token>::empty(),
                    bag_count_must_light(old(self).tokens_to_be_added@) as nat,
                    (bag_count_type(old(self).tokens_to_be_added@, TokenType::TargetMirror)
                        - bag_count_must_light(old(self).tokens_to_be_added@)) as nat,
                    bag_count_type(old(self).tokens_to_be_added@, TokenType::Checkpoint) as nat,
                    bag_count_type(old(self).tokens_to_be_added@, TokenType::DoubleMirror) as nat,
                    bag_count_type(old(self).tokens_to_be_added@, TokenType::BeamSplitter) as nat,
                ) ==> exists|k: int|
                    0 <= k < r@.len() && (#[trigger] r@[k]).tokens_to_be_added_shuffled@ == w,
            forall|k: int|
                0 <= k < r@.len() ==> ({
                    &&& ordering_extends(
                        (#[trigger] r@[k]).tokens_to_be_added_shuffled@,
                        Seq::<Token>::empty(),
                        bag_count_must_light(old(self).tokens_to_be_added@) as nat,
                        (bag_count_type(old(self).tokens_to_be_added@, TokenType::TargetMirror)
                            - bag_count_must_light(old(self).tokens_to_be_added@)) as nat,
                        bag_count_type(
                            old(self).tokens_to_be_added@,
                            TokenType::Checkpoint,
                        ) as nat,
                        bag_count_type(
                            old(self).tokens_to_be_added@,
                            TokenType::DoubleMirror,
                        ) as nat,
                        bag_count_type(
                            old(self).tokens_to_be_added@,
                            TokenType::BeamSplitter,
                        ) as nat,
                    )
                    &&& r@[k].cells@ == old(self).cells@
                    &&& r@[k].tokens_to_be_added@.len() == 0
                    &&& r@[k].targets == old(self).targets
                }),
    {
        let n_target_mirrors_must_light = self.count_must_light_tokens_to_be_added();
        let n_tm = self.count_tokens_to_be_added_by_type(TokenType::TargetMirror);
        proof {
            lemma_bag_counts(self.tokens_to_be_added@);
        }
        let n_target_mirrors_may_not_light = n_tm - n_target_mirrors_must_light;
        let n_checkpoints = self.count_tokens_to_be_added_by_type(TokenType::Checkpoint);
        let n_double_mirrors = self.count_tokens_to_be_added_by_type(TokenType::DoubleMirror);
        let n_beam_splitters = self.count_tokens_to_be_added_by_type(TokenType::BeamSplitter);

        let mut unique_orderings: Vec<Vec<Token>> = Vec::new();
        let current_ordering: Vec<Token> = Vec::new();
        backtrack(
            n_target_mirrors_must_light,
            n_target_mirrors_may_not_light,
            n_checkpoints,
            n_double_mirrors,
            n_beam_splitters,
            current_ordering,
            &mut unique_orderings,
        );
        proof {
            lemma_bag_len_sum(self.tokens_to_be_added@);
            assert(n_target_mirrors_must_light + n_target_mirrors_may_not_light + n_checkpoints
                + n_double_mirrors + n_beam_splitters == self.tokens_to_be_added@.len());
        }

        let mut result: Vec<SolverNode> = Vec::new();
        let n = unique_orderings.len();
        let mut k: usize = 0;
        while k < n
            invariant
                n == unique_orderings@.len(),
                k <= n,
                self == old(self),
                old(self).inv(),
                bag_count_type(old(self).tokens_to_be_added@, TokenType::Laser) == 0,
                old(self).tokens_to_be_added_shuffled@.len() == 0,
                old(self).tokens_to_be_added@.len() >= 1,
                bag_count_must_light(old(self).tokens_to_be_added@) <= bag_count_type(
                    old(self).tokens_to_be_added@,
                    TokenType::TargetMirror,
                ),
                result@.len() == k,
                orderings_distinct(unique_orderings@, 0, n as int),
                orderings_complete(
                    unique_orderings@,
                    0,
                    Seq::<Token>::empty(),
                    bag_count_must_light(old(self).tokens_to_be_added@) as nat,
                    (bag_count_type(old(self).tokens_to_be_added@, TokenType::TargetMirror)
                        - bag_count_must_light(old(self).tokens_to_be_added@)) as nat,
                    bag_count_type(old(self).tokens_to_be_added@, TokenType::Checkpoint) as nat,
                    bag_count_type(old(self).tokens_to_be_added@, TokenType::DoubleMirror) as nat,
                    bag_count_type(old(self).tokens_to_be_added@, TokenType::BeamSplitter) as nat,
                ),
                forall|j: int|
                    0 <= j < result@.len() ==> (#[trigger] result@[j]).tokens_to_be_added_shuffled@
                        == (unique_orderings@[j])@,
                forall|j: int|
                    0 <= j < result@.len() ==> ({
                        &&& (#[trigger] result@[j]).cells@ == old(self).cells@
                        &&& result@[j].tokens_to_be_added@.len() == 0
                        &&& result@[j].targets == old(self).targets
                    }),
                n <= pow5(old(self).tokens_to_be_added@.len() as nat),
                n_target_mirrors_must_light as int + n_target_mirrors_may_not_light as int
                    + n_checkpoints as int + n_double_mirrors as int + n_beam_splitters as int
                    == old(self).tokens_to_be_added@.len(),
                forall|j: int|
                    0 <= j < n ==> ordering_extends(
                        (#[trigger] unique_orderings@[j])@,
                        Seq::<Token>::empty(),
                        bag_count_must_light(old(self).tokens_to_be_added@) as nat,
                        (bag_count_type(old(self).tokens_to_be_added@, TokenType::TargetMirror)
                            - bag_count_must_light(old(self).tokens_to_be_added@)) as nat,
                        bag_count_type(old(self).tokens_to_be_added@, TokenType::Checkpoint) as nat,
                        bag_count_type(
                            old(self).tokens_to_be_added@,
                            TokenType::DoubleMirror,
                        ) as nat,
                        bag_count_type(
                            old(self).tokens_to_be_added@,
                            TokenType::BeamSplitter,
                        ) as nat,
                    ),
                forall|j: int| 0 <= j < result@.len() ==> branch_of(#[trigger] result@[j], *old(self)),
                forall|j: int|
                    0 <= j < result@.len() ==> node_weight(#[trigger] result@[j]) < node_weight(
                        *old(self),
                    ),
            decreases n - k,
        {
            let w = copy_tokens(&unique_orderings[k]);
            let child = SolverNode {
                cells: copy_cells(&self.cells),
                tokens_to_be_added: Vec::new(),
                tokens_to_be_added_shuffled: w,
                targets: self.targets,
            };
            proof {
                lemma_ordering_matches_bag(
                    child.tokens_to_be_added_shuffled@,
                    old(self).tokens_to_be_added@,
                );
                assert(bag_pieces(Seq::<Token>::empty()) == Multiset::<(TokenType, bool)>::empty());
                assert(child.pieces() =~= old(self).pieces());
                lemma_node_laser_count(child);
                lemma_node_laser_count(*old(self));
                assert(cells_extends(child.cells@, old(self).cells@));
                assert(branch_of(child, *old(self)));
                assert(ordering_extends(
                    (unique_orderings@[k as int])@,
                    Seq::<Token>::empty(),
                    bag_count_must_light(old(self).tokens_to_be_added@) as nat,
                    (bag_count_type(old(self).tokens_to_be_added@, TokenType::TargetMirror)
                        - bag_count_must_light(old(self).tokens_to_be_added@)) as nat,
                    bag_count_type(old(self).tokens_to_be_added@, TokenType::Checkpoint) as nat,
                    bag_count_type(old(self).tokens_to_be_added@, TokenType::DoubleMirror) as nat,
                    bag_count_type(old(self).tokens_to_be_added@, TokenType::BeamSplitter) as nat,
                ));
                assert(child.tokens_to_be_added_shuffled@ == (unique_orderings@[k as int])@);
                assert(child.tokens_to_be_added_shuffled@.len() == old(
                    self,
                ).tokens_to_be_added@.len()) by {
                    reveal(ordering_extends);
                    lemma_bag_len_sum(old(self).tokens_to_be_added@);
                }
                assert(node_weight(child) < node_weight(*old(self)));
            }
            result.push(child);
            k += 1;
        }
        proof {
            assert forall|k1: int, k2: int| 0 <= k1 < k2 < result@.len() implies (
            #[trigger] result@[k1]).tokens_to_be_added_shuffled@ != (
            #[trigger] result@[k2]).tokens_to_be_added_shuffled@ by {
                assert((unique_orderings@[k1])@ != (unique_orderings@[k2])@);
            }
            assert forall|k: int|
                0 <= k < result@.len() implies ordering_extends(
                (#[trigger] result@[k]).tokens_to_be_added_shuffled@,
                Seq::<Token>::empty(),
                bag_count_must_light(old(self).tokens_to_be_added@) as nat,
                (bag_count_type(old(self).tokens_to_be_added@, TokenType::TargetMirror)
                    - bag_count_must_light(old(self).tokens_to_be_added@)) as nat,
                bag_count_type(old(self).tokens_to_be_added@, TokenType::Checkpoint) as nat,
                bag_count_type(old(self).tokens_to_be_added@, TokenType::DoubleMirror) as nat,
                bag_count_type(old(self).tokens_to_be_added@, TokenType::BeamSplitter) as nat,
            ) by {
                assert(ordering_extends(
                    (unique_orderings@[k])@,
                    Seq::<Token>::empty(),
                    bag_count_must_light(old(self).tokens_to_be_added@) as nat,
                    (bag_count_type(old(self).tokens_to_be_added@, TokenType::TargetMirror)
                        - bag_count_must_light(old(self).tokens_to_be_added@)) as nat,
                    bag_count_type(old(self).tokens_to_be_added@, TokenType::Checkpoint) as nat,
                    bag_count_type(old(self).tokens_to_be_added@, TokenType::DoubleMirror) as nat,
                    bag_count_type(old(self).tokens_to_be_added@, TokenType::BeamSplitter) as nat,
                ));
            }
            reveal(orderings_complete);
            assert forall|w: Seq<Token>|
                #[trigger] ordering_extends(
                    w,
                    Seq::<Token>::empty(),
                    bag_count_must_light(old(self).tokens_to_be_added@) as nat,
                    (bag_count_type(old(self).tokens_to_be_added@, TokenType::TargetMirror)
                        - bag_count_must_light(old(self).tokens_to_be_added@)) as nat,
                    bag_count_type(old(self).tokens_to_be_added@, TokenType::Checkpoint) as nat,
                    bag_count_type(old(self).tokens_to_be_added@, TokenType::DoubleMirror) as nat,
                    bag_count_type(old(self).tokens_to_be_added@, TokenType::BeamSplitter) as nat,
                ) implies exists|k: int|
                0 <= k < result@.len() && (#[trigger] result@[k]).tokens_to_be_added_shuffled@
                    == w by {
                let k = choose|k: int|
                    0 <= k < unique_orderings@.len() && ((#[trigger] unique_orderings@[k])@ == w);
                assert(result@[k].tokens_to_be_added_shuffled@ == w);
            }
        }
        result
    }

    /// The next generation for this node, or the solved board.
    ///
    /// Branching follows a fixed precedence: place and rotate the laser;
    /// then fix an ordering of the unordered bag; then hand the board to
    /// the beam simulator, which either certifies it solved or proposes
    /// rotations for pieces the beam reached and placements on cells the
    /// beam visits.  `Ok` carries a fully placed, rotated board whose
    /// simulation lights exactly the required targets with every beam on
    /// the board; `Err` carries the children, each holding exactly this
    /// node's pieces and keeping all its settled placements.
    pub fn generate_branches(&mut self) -> (r: Result<Vec<Option<Token>>, Vec<SolverNode>>)
        requires
            old(self).inv(),
        ensures
            r is Ok <==> (laser_ready(old(self).cells@) && old(self).tokens_to_be_added@.len()
                == 0 && old(self).tokens_to_be_added_shuffled@.len() == 0
                && crate::checker::spec_cells_solved(old(self).cells@, old(self).targets)),
            r matches Ok(cells) ==> ({
                &&& cells@ == old(self).cells@
                &&& crate::checker::cells_all_oriented(cells@)
            }),
            r matches Err(children) ==> forall|k: int|
                0 <= k < children@.len() ==> branch_of(#[trigger] children@[k], *old(self)),
            r matches Err(children) ==> (children@.len() <= pow5(
                old(self).tokens_to_be_added@.len() as nat,
            ) + 529 && forall|k: int|
                0 <= k < children@.len() ==> node_weight(#[trigger] children@[k]) < node_weight(
                    *old(self),
                )),
            r matches Err(children) ==> ({
                // Branching precedence: first the laser, then the bag
                // ordering, then the simulation-guided rotations and
                // placements.
                &&& !laser_ready(old(self).cells@) ==> ({
                    &&& forall|k: int|
                        0 <= k < children@.len() ==> laser_ready((#[trigger] children@[k]).cells@)
                    &&& first_laser(old(self).cells@) matches Some(f) ==> ({
                        let allowed = spec_allowed_orientation_indices(
                            old(self).cells@,
                            old(self).cells@[f]->0.type_,
                            f,
                        );
                        &&& children@.len() == allowed.len()
                        &&& forall|k: int|
                            0 <= k < children@.len() ==> rotation_child(
                                #[trigger] children@[k],
                                *old(self),
                                f,
                                k,
                            )
                    })
                    &&& first_laser(old(self).cells@) is None ==> ({
                        &&& forall|k: int|
                            0 <= k < children@.len() ==> laser_child_sound(
                                #[trigger] children@[k],
                                *old(self),
                            )
                        &&& forall|c: int, k: int|
                            (0 <= c < 25 && old(self).cells@[c] is None && 0 <= k
                                < spec_allowed_orientation_indices(
                                old(self).cells@.update(
                                    c,
                                    Some(
                                        Token {
                                            type_: TokenType::Laser,
                                            orientation: None,
                                            lit: true,
                                            target_lit: None,
                                            must_light: false,
                                        },
                                    ),
                                ),
                                TokenType::Laser,
                                c,
                            ).len()) ==> #[trigger] laser_covered(children@, *old(self), c, k)
                    })
                })
                &&& (laser_ready(old(self).cells@) && old(self).tokens_to_be_added@.len() > 0)
                    ==> ({
                    &&& forall|k: int|
                        0 <= k < children@.len() ==> ({
                            &&& ordering_extends(
                                (#[trigger] children@[k]).tokens_to_be_added_shuffled@,
                                Seq::<Token>::empty(),
                                bag_count_must_light(old(self).tokens_to_be_added@) as nat,
                                (bag_count_type(
                                    old(self).tokens_to_be_added@,
                                    TokenType::TargetMirror,
                                ) - bag_count_must_light(old(self).tokens_to_be_added@)) as nat,
                                bag_count_type(
                                    old(self).tokens_to_be_added@,
                                    TokenType::Checkpoint,
                                ) as nat,
                                bag_count_type(
                                    old(self).tokens_to_be_added@,
                                    TokenType::DoubleMirror,
                                ) as nat,
                                bag_count_type(
                                    old(self).tokens_to_be_added@,
                                    TokenType::BeamSplitter,
                                ) as nat,
                            )
                            &&& children@[k].cells@ == old(self).cells@
                            &&& children@[k].tokens_to_be_added@.len() == 0
                        })
                    &&& forall|k1: int, k2: int|
                        0 <= k1 < k2 < children@.len() ==> (
                        #[trigger] children@[k1]).tokens_to_be_added_shuffled@ != (
                        #[trigger] children@[k2]).tokens_to_be_added_shuffled@
                })
                &&& (laser_ready(old(self).cells@) && old(self).tokens_to_be_added@.len() == 0)
                    ==> ({
                    let fin = crate::checker::spec_run(
                        crate::checker::spec_initialize(
                            crate::checker::fresh_state(old(self).cells@),
                        ),
                    );
                    &&& fin.unoriented.len() > 0 ==> ({
                        &&& forall|j: int|
                            0 <= j < children@.len() ==> rotation_sound(
                                #[trigger] children@[j],
                                *old(self),
                                fin.unoriented,
                            )
                        &&& forall|i: int, k: int|
                            (0 <= i < fin.unoriented.len() && 0 <= k
                                < spec_allowed_orientation_indices(
                                old(self).cells@,
                                old(self).cells@[fin.unoriented[i] as int]->0.type_,
                                fin.unoriented[i] as int,
                            ).len()) ==> #[trigger] rotation_covered(
                                children@,
                                *old(self),
                                fin.unoriented[i] as int,
                                k,
                            )
                    })
                    &&& (fin.unoriented.len() == 0
                        && old(self).tokens_to_be_added_shuffled@.len() > 0) ==> ({
                        &&& forall|j: int|
                            0 <= j < children@.len() ==> placement_sound(
                                #[trigger] children@[j],
                                *old(self),
                                fin.visited,
                            )
                        &&& forall|c: int|
                            (0 <= c < 25 && old(self).cells@[c] is None
                                && #[trigger] crate::checker::cell_visited_any(fin.visited, c))
                                ==> placement_covered(children@, *old(self), c)
                    })
                    &&& (fin.unoriented.len() == 0
                        && old(self).tokens_to_be_added_shuffled@.len() == 0)
                        ==> children@.len() == 0
                })
            }),
    {
        proof {
            lemma_pow5_monotone(0, old(self).tokens_to_be_added@.len() as nat);
        }
        if !self.laser_placed_and_rotated() {
            return Result::Err(self.generate_laser_placement_branches());
        }
        if self.tokens_to_be_added.len() > 0 {
            proof {
                lemma_first_laser_holds_laser(self.cells@);
                lemma_cells_count_type_zero(self.cells@, TokenType::Laser);
                lemma_bag_count_type_zero(self.tokens_to_be_added@, TokenType::Laser);
                lemma_bag_count_type_zero(self.tokens_to_be_added_shuffled@, TokenType::Laser);
            }
            return Result::Err(self.generate_shuffled_tokens_to_be_added_branches());
        }
        let checker = crate::checker::Checker::from_solver_node(self.duplicate());
        proof {
            assert(node_weight(checker.grid) == node_weight(*old(self)));
            assert(checker.grid.inv());
        }
        let ghost checker_grid = checker.grid;
        let r = checker.generate_branches();
        proof {
            lemma_shape_preds_view_eq(checker_grid, *old(self));
            assert(checker_grid.cells@ == old(self).cells@);
        }
        match r {
            Result::Err(ref children_vec) => {
                proof {
                    let children = *children_vec;
                    assert(crate::checker::fresh_state(checker_grid.cells@)
                        == crate::checker::fresh_state(old(self).cells@));
                    let fin = crate::checker::spec_run(
                        crate::checker::spec_initialize(
                            crate::checker::fresh_state(old(self).cells@),
                        ),
                    );
                    if fin.unoriented.len() > 0 {
                        assert forall|j: int| 0 <= j < children@.len() implies rotation_sound(
                            #[trigger] children@[j],
                            *old(self),
                            fin.unoriented,
                        ) by {
                            assert(rotation_sound(children@[j], checker_grid, fin.unoriented));
                        }
                        assert forall|i: int, k: int|
                            (0 <= i < fin.unoriented.len() && 0 <= k
                                < spec_allowed_orientation_indices(
                                old(self).cells@,
                                old(self).cells@[fin.unoriented[i] as int]->0.type_,
                                fin.unoriented[i] as int,
                            ).len()) implies #[trigger] rotation_covered(
                            children@,
                            *old(self),
                            fin.unoriented[i] as int,
                            k,
                        ) by {
                            assert(rotation_covered(
                                children@,
                                checker_grid,
                                fin.unoriented[i] as int,
                                k,
                            ));
                        }
                    } else if old(self).tokens_to_be_added_shuffled@.len() > 0 {
                        assert forall|j: int| 0 <= j < children@.len() implies placement_sound(
                            #[trigger] children@[j],
                            *old(self),
                            fin.visited,
                        ) by {
                            assert(placement_sound(children@[j], checker_grid, fin.visited));
                        }
                        assert forall|c: int|
                            (0 <= c < 25 && old(self).cells@[c] is None
                                && #[trigger] crate::checker::cell_visited_any(fin.visited, c))
                                implies placement_covered(children@, *old(self), c) by {
                            assert(placement_covered(children@, checker_grid, c));
                        }
                    }
                }
            },
            _ => {},
        }
        r
    }

    /// Whether this board's recorded lit state meets the win condition's
    /// counting clauses: exactly the required number of target lights on,
    /// and every must-light piece lit.
    pub fn solved(&self) -> (r: bool)
        requires
            self.cells@.len() == 25,
        ensures
            r == (self.targets as int == spec_count_lit_targets(self.cells@)
                && spec_all_required_targets_lit(self.cells@)),
    {
        let n = self.cells.len();
        let mut count: u8 = 0;
        let mut all_required: bool = true;
        let mut i: usize = 0;
        while i < n
            invariant
                n == self.cells@.len(),
                n == 25,
                i <= n,
                count as int == spec_count_lit_targets(self.cells@.take(i as int)),
                count <= i,
                all_required == forall|j: int|
                    0 <= j < i ==> ((#[trigger] self.cells@[j]) matches Some(t) ==> (t.must_light
                        ==> t.target_lit == Some(true))),
            decreases n - i,
        {
            proof {
                crate::checker::lemma_count_lit_targets_take(self.cells@, i as int);
            }
            match self.cells[i] {
                Some(t) => {
                    let target_on = match t.target_lit {
                        Some(b) => b,
                        None => false,
                    };
                    if target_on {
                        count += 1;
                    }
                    if t.must_light && !target_on {
                        proof {
                            assert(t.target_lit != Some(true));
                        }
                        all_required = false;
                    }
                },
                None => {},
            }
            i += 1;
        }
        proof {
            assert(self.cells@.take(n as int) =~= self.cells@);
        }
        self.targets == count && all_required
    }

    /// Runs one full beam simulation of this board.
    pub fn check(self) -> (r: crate::checker::Checker)
        requires
            cells_wf(self.cells@),
            first_laser(self.cells@) matches Some(i) ==> self.cells@[i]->0.orientation is Some,
        ensures
            r.sim_state() == crate::checker::spec_run(
                crate::checker::spec_initialize(crate::checker::fresh_state(self.cells@)),
            ),
            r.grid.tokens_to_be_added@ == self.tokens_to_be_added@,
            r.grid.tokens_to_be_added_shuffled@ == self.tokens_to_be_added_shuffled@,
            r.grid.targets == self.targets,
    {
        crate::checker::Checker::from_solver_node(self).check()
    }
}

/// Number of placed tokens whose rotation is not yet set.
pub open spec fn unoriented_count(cells: Seq<Option<Token>>) -> nat
    decreases cells.len(),
{
    if cells.len() == 0 {
        0
    } else {
        unoriented_count(cells.drop_last()) + if cells.last() matches Some(t)
            && t.orientation is None {
            1nat
        } else {
            0nat
        }
    }
}

/// How far a node still is from a leaf: an unplaced or unrotated laser
/// counts one, each bagged piece three, each ordered piece two, each
/// unrotated placed piece one.  Every branch generation step lowers this
/// weight, which bounds the depth of the search tree.
pub open spec fn node_weight(n: SolverNode) -> nat {
    (if laser_ready(n.cells@) {
        0nat
    } else {
        1nat
    }) + 3 * n.tokens_to_be_added@.len() + 2 * n.tokens_to_be_added_shuffled@.len()
        + unoriented_count(n.cells@)
}

/// Swapping one cell's content adjusts the unrotated-piece count by the
/// two cells' contributions.
pub proof fn lemma_unoriented_count_update(cells: Seq<Option<Token>>, i: int, v: Option<Token>)
    requires
        0 <= i < cells.len(),
    ensures
        unoriented_count(cells.update(i, v)) + (if cells[i] matches Some(t)
            && t.orientation is None {
            1nat
        } else {
            0nat
        }) == unoriented_count(cells) + (if v matches Some(t) && t.orientation is None {
            1nat
        } else {
            0nat
        }),
    decreases cells.len(),
{
    if i == cells.len() - 1 {
        assert(cells.update(i, v).drop_last() =~= cells.drop_last());
        assert(cells.update(i, v).last() == v);
    } else {
        assert(cells.update(i, v).drop_last() =~= cells.drop_last().update(i, v));
        assert(cells.update(i, v).last() == cells.last());
        lemma_unoriented_count_update(cells.drop_last(), i, v);
        assert(cells.drop_last()[i] == cells[i]);
    }
}

/// Boards holding lasers in the same cells find their first laser in the
/// same cell.
pub proof fn lemma_first_laser_same(a: Seq<Option<Token>>, b: Seq<Option<Token>>)
    requires
        a.len() == b.len(),
        forall|i: int|
            0 <= i < a.len() ==> (((#[trigger] a[i]) matches Some(t) && t.type_
                == TokenType::Laser) <==> ((#[trigger] b[i]) matches Some(u) && u.type_
                == TokenType::Laser)),
    ensures
        first_laser(a) == first_laser(b),
{
    lemma_first_laser_from_same(a, b, 0);
}

proof fn lemma_first_laser_from_same(a: Seq<Option<Token>>, b: Seq<Option<Token>>, i: int)
    requires
        a.len() == b.len(),
        forall|j: int|
            0 <= j < a.len() ==> (((#[trigger] a[j]) matches Some(t) && t.type_
                == TokenType::Laser) <==> ((#[trigger] b[j]) matches Some(u) && u.type_
                == TokenType::Laser)),
    ensures
        first_laser_from(a, i) == first_laser_from(b, i),
    decreases a.len() - i,
{
    if 0 <= i < a.len() {
        lemma_first_laser_from_same(a, b, i + 1);
    }
}

/// A bag's length is the sum of its per-type counts.
pub proof fn lemma_bag_len_sum(ts: Seq<Token>)
    ensures
        ts.len() == bag_count_type(ts, TokenType::Laser) + bag_count_type(
            ts,
            TokenType::TargetMirror,
        ) + bag_count_type(ts, TokenType::BeamSplitter) + bag_count_type(
            ts,
            TokenType::DoubleMirror,
        ) + bag_count_type(ts, TokenType::Checkpoint) + bag_count_type(ts, TokenType::CellBlocker),
    decreases ts.len(),
{
    if ts.len() > 0 {
        lemma_bag_len_sum(ts.drop_last());
    }
}

/// Five to the given power: an upper bound on how many orderings the
/// shuffle generator emits for that many bagged pieces.
pub open spec fn pow5(n: nat) -> nat
    decreases n,
{
    if n == 0 {
        1
    } else {
        5 * pow5((n - 1) as nat)
    }
}

/// `pow5` is positive and monotone.
pub proof fn lemma_pow5_monotone(a: nat, b: nat)
    requires
        a <= b,
    ensures
        1 <= pow5(a) <= pow5(b),
    decreases b,
{
    if b > 0 {
        if a == b {
            lemma_pow5_monotone(0, (b - 1) as nat);
        } else {
            lemma_pow5_monotone(a, (b - 1) as nat);
        }
    }
}

/// What makes one node a legitimate branch of another: it is itself a
/// well-formed one-laser node, seeks the same target count, holds exactly
/// the same pieces (wherever they have moved), and keeps every placement
/// and rotation the parent had already fixed.
pub open spec fn branch_of(child: SolverNode, parent: SolverNode) -> bool {
    &&& child.inv()
    &&& child.targets == parent.targets
    &&& child.pieces() == parent.pieces()
    &&& cells_extends(child.cells@, parent.cells@)
}

/// Being a branch is transitive.
pub proof fn lemma_branch_of_trans(a: SolverNode, b: SolverNode, c: SolverNode)
    requires
        branch_of(a, b),
        branch_of(b, c),
    ensures
        branch_of(a, c),
{
    lemma_cells_extends_trans(a.cells@, b.cells@, c.cells@);
}

/// Appending a token to a bag inserts its identity into the bag's pieces.
pub proof fn lemma_bag_pieces_push(ts: Seq<Token>, t: Token)
    ensures
        bag_pieces(ts.push(t)) == bag_pieces(ts).insert(piece_of(t)),
{
    assert(ts.push(t).drop_last() =~= ts);
}

/// Removing a token from a bag removes its identity from the bag's pieces.
pub proof fn lemma_bag_pieces_remove(ts: Seq<Token>, i: int)
    requires
        0 <= i < ts.len(),
    ensures
        bag_pieces(ts.remove(i)).insert(piece_of(ts[i])) =~= bag_pieces(ts),
    decreases ts.len(),
{
    if i == ts.len() - 1 {
        assert(ts.remove(i) =~= ts.drop_last());
    } else {
        assert(ts.remove(i).drop_last() =~= ts.drop_last().remove(i));
        assert(ts.remove(i).last() == ts.last());
        lemma_bag_pieces_remove(ts.drop_last(), i);
    }
}

/// Swapping one cell's content exchanges the corresponding identities in
/// the board's pieces.
pub proof fn lemma_cells_pieces_update(cells: Seq<Option<Token>>, i: int, v: Option<Token>)
    requires
        0 <= i < cells.len(),
    ensures
        cells_pieces(cells.update(i, v)).add(opt_pieces(cells[i])) =~= cells_pieces(cells).add(
            opt_pieces(v),
        ),
    decreases cells.len(),
{
    let upd = cells.update(i, v);
    if i == cells.len() - 1 {
        assert(upd.drop_last() =~= cells.drop_last());
        assert(upd.last() == v);
        assert(cells_pieces(upd) == cells_pieces(cells.drop_last()).add(opt_pieces(v)));
        assert(cells_pieces(upd).add(opt_pieces(cells[i])) =~= cells_pieces(cells).add(
            opt_pieces(v),
        ));
    } else {
        assert(upd.drop_last() =~= cells.drop_last().update(i, v));
        assert(upd.last() == cells.last());
        lemma_cells_pieces_update(cells.drop_last(), i, v);
        assert(cells.drop_last()[i] == cells[i]);
        assert(cells_pieces(upd) == cells_pieces(cells.drop_last().update(i, v)).add(
            opt_pieces(cells.last()),
        ));
        assert forall|p: (TokenType, bool)|
            cells_pieces(upd).add(opt_pieces(cells[i])).count(p) == cells_pieces(cells).add(
                opt_pieces(v),
            ).count(p) by {
            assert(cells_pieces(cells.drop_last().update(i, v)).add(
                opt_pieces(cells[i]),
            ).count(p) == cells_pieces(cells.drop_last()).add(opt_pieces(v)).count(p));
        }
    }
}

/// Boards with the same placement (only lit state differing) hold the same
/// pieces and the same per-type and must-light counts.
pub proof fn lemma_cells_pieces_core_eq(a: Seq<Option<Token>>, b: Seq<Option<Token>>)
    requires
        a.len() == b.len(),
        forall|i: int|
            0 <= i < a.len() ==> {
                &&& ((#[trigger] a[i]) is Some <==> (#[trigger] b[i]) is Some)
                &&& (a[i] is Some ==> crate::token::token_core(a[i]->0) == crate::token::token_core(
                    b[i]->0,
                ))
            },
    ensures
        cells_pieces(a) =~= cells_pieces(b),
        forall|ty: TokenType| cells_count_type(a, ty) == cells_count_type(b, ty),
        cells_count_must_light(a) == cells_count_must_light(b),
    decreases a.len(),
{
    if a.len() > 0 {
        lemma_cells_pieces_core_eq(a.drop_last(), b.drop_last());
        assert(opt_pieces(a.last()) =~= opt_pieces(b.last()));
        assert forall|ty: TokenType| cells_count_type(a, ty) == cells_count_type(
            b,
            ty,
        ) by {
            assert(cells_count_type(a.drop_last(), ty) == cells_count_type(b.drop_last(), ty));
        }
    }
}

/// Per-type counts of a board, read off its pieces.
pub proof fn lemma_cells_counts(cells: Seq<Option<Token>>)
    ensures
        forall|ty: TokenType| #[trigger] cells_count_type(cells, ty) == cells_pieces(cells).count(
            (ty, false),
        ) + cells_pieces(cells).count((ty, true)),
        cells_tokens_wf(cells) ==> cells_count_must_light(cells) == cells_pieces(cells).count(
            (TokenType::TargetMirror, true),
        ),
        cells_tokens_wf(cells) ==> forall|ty: TokenType|
            ty != TokenType::TargetMirror ==> #[trigger] cells_pieces(cells).count((ty, true))
                == 0,
    decreases cells.len(),
{
    if cells.len() > 0 {
        assert(cells_tokens_wf(cells) ==> cells_tokens_wf(cells.drop_last())) by {
            if cells_tokens_wf(cells) {
                assert(forall|i: int|
                    0 <= i < cells.len() - 1 ==> cells.drop_last()[i] == #[trigger] cells[i]);
            }
        }
        lemma_cells_counts(cells.drop_last());
        assert forall|ty: TokenType| #[trigger] cells_count_type(cells, ty) == cells_pieces(
            cells,
        ).count((ty, false)) + cells_pieces(cells).count((ty, true)) by {
            assert(cells_count_type(cells.drop_last(), ty) == cells_pieces(
                cells.drop_last(),
            ).count((ty, false)) + cells_pieces(cells.drop_last()).count((ty, true)));
        }
        if cells_tokens_wf(cells) {
            assert(cells[cells.len() - 1] == cells.last());
            assert forall|ty: TokenType| ty != TokenType::TargetMirror implies #[trigger] cells_pieces(
                cells,
            ).count((ty, true)) == 0 by {
                assert(cells_pieces(cells.drop_last()).count((ty, true)) == 0);
            }
        }
    }
}

/// Per-type counts of a bag, read off its pieces.
pub proof fn lemma_bag_counts(ts: Seq<Token>)
    ensures
        forall|ty: TokenType| #[trigger] bag_count_type(ts, ty) == bag_pieces(ts).count(
            (ty, false),
        ) + bag_pieces(ts).count((ty, true)),
        bag_wf(ts) ==> bag_count_must_light(ts) == bag_pieces(ts).count(
            (TokenType::TargetMirror, true),
        ),
        bag_wf(ts) ==> forall|ty: TokenType|
            ty != TokenType::TargetMirror ==> #[trigger] bag_pieces(ts).count((ty, true)) == 0,
    decreases ts.len(),
{
    if ts.len() > 0 {
        assert(bag_wf(ts) ==> bag_wf(ts.drop_last())) by {
            if bag_wf(ts) {
                assert(forall|i: int|
                    0 <= i < ts.len() - 1 ==> ts.drop_last()[i] == #[trigger] ts[i]);
            }
        }
        lemma_bag_counts(ts.drop_last());
        assert forall|ty: TokenType| #[trigger] bag_count_type(ts, ty) == bag_pieces(ts).count(
            (ty, false),
        ) + bag_pieces(ts).count((ty, true)) by {
            assert(bag_count_type(ts.drop_last(), ty) == bag_pieces(ts.drop_last()).count(
                (ty, false),
            ) + bag_pieces(ts.drop_last()).count((ty, true)));
        }
        if bag_wf(ts) {
            assert(ts[ts.len() - 1] == ts.last());
            assert(token_wf(ts.last()));
            assert forall|ty: TokenType| ty != TokenType::TargetMirror implies #[trigger] bag_pieces(
                ts,
            ).count((ty, true)) == 0 by {
                assert(bag_pieces(ts.drop_last()).count((ty, true)) == 0);
            }
        }
    }
}

/// A per-type board count is zero exactly when no cell holds that type.
pub proof fn lemma_cells_count_type_zero(cells: Seq<Option<Token>>, ty: TokenType)
    ensures
        cells_count_type(cells, ty) == 0 <==> forall|i: int|
            0 <= i < cells.len() ==> !((#[trigger] cells[i]) matches Some(t) && t.type_ == ty),
        cells_count_type(cells, ty) >= 0,
    decreases cells.len(),
{
    if cells.len() > 0 {
        lemma_cells_count_type_zero(cells.drop_last(), ty);
        assert(forall|i: int|
            0 <= i < cells.len() - 1 ==> cells.drop_last()[i] == #[trigger] cells[i]);
    }
}

/// A per-type bag count is zero exactly when no bag token has that type.
pub proof fn lemma_bag_count_type_zero(ts: Seq<Token>, ty: TokenType)
    ensures
        bag_count_type(ts, ty) == 0 <==> forall|i: int|
            0 <= i < ts.len() ==> (#[trigger] ts[i]).type_ != ty,
        bag_count_type(ts, ty) >= 0,
    decreases ts.len(),
{
    if ts.len() > 0 {
        lemma_bag_count_type_zero(ts.drop_last(), ty);
        assert(forall|i: int| 0 <= i < ts.len() - 1 ==> ts.drop_last()[i] == #[trigger] ts[i]);
    }
}

/// With at most one token of a type on the board, two cells holding that
/// type are the same cell.
pub proof fn lemma_cells_count_type_unique(cells: Seq<Option<Token>>, ty: TokenType)
    requires
        cells_count_type(cells, ty) <= 1,
    ensures
        forall|i: int, j: int|
            (0 <= i < cells.len() && 0 <= j < cells.len() && ((#[trigger] cells[i]) matches Some(t)
                && t.type_ == ty) && ((#[trigger] cells[j]) matches Some(u) && u.type_ == ty)) ==> i
                == j,
    decreases cells.len(),
{
    lemma_cells_count_type_zero(cells, ty);
    if cells.len() > 0 {
        lemma_cells_count_type_zero(cells.drop_last(), ty);
        if cells.last() matches Some(t) && t.type_ == ty {
            assert(forall|i: int|
                0 <= i < cells.len() - 1 ==> cells.drop_last()[i] == #[trigger] cells[i]);
        } else {
            lemma_cells_count_type_unique(cells.drop_last(), ty);
            assert(forall|i: int|
                0 <= i < cells.len() - 1 ==> cells.drop_last()[i] == #[trigger] cells[i]);
        }
    }
}

/// Non-corner cells of the top board edge.
pub open spec fn on_north_edge(c: int) -> bool {
    c == 21 || c == 22 || c == 23
}

/// Non-corner cells of the right board edge.
pub open spec fn on_east_edge(c: int) -> bool {
    c == 9 || c == 14 || c == 19
}

/// Non-corner cells of the bottom board edge.
pub open spec fn on_south_edge(c: int) -> bool {
    c == 1 || c == 2 || c == 3
}

/// Non-corner cells of the left board edge.
pub open spec fn on_west_edge(c: int) -> bool {
    c == 5 || c == 10 || c == 15
}

/// The interior cell(s) next to a cell blocker standing at `b`, whose
/// orientation choices the blocker restricts: both straight neighbours for
/// a corner blocker, the single inward neighbour for an edge blocker,
/// none for an interior blocker.
pub open spec fn blocker_neighbors(b: int) -> (Option<int>, Option<int>) {
    if b == 0 {
        (Some(1int), Some(5int))
    } else if b == 4 {
        (Some(3int), Some(9int))
    } else if b == 20 {
        (Some(15int), Some(21int))
    } else if b == 24 {
        (Some(23int), Some(19int))
    } else if b == 1 {
        (Some(6int), None)
    } else if b == 2 {
        (Some(7int), None)
    } else if b == 3 {
        (Some(8int), None)
    } else if b == 9 {
        (Some(8int), None)
    } else if b == 14 {
        (Some(13int), None)
    } else if b == 19 {
        (Some(18int), None)
    } else if b == 23 {
        (Some(18int), None)
    } else if b == 22 {
        (Some(17int), None)
    } else if b == 21 {
        (Some(16int), None)
    } else if b == 15 {
        (Some(16int), None)
    } else if b == 10 {
        (Some(11int), None)
    } else if b == 5 {
        (Some(6int), None)
    } else {
        (None, None)
    }
}

/// The directions a piece neighbouring a corner blocker cannot face.
pub open spec fn corner_blocker_forbidden(cell: int) -> (Option<Orientation>, Option<
    Orientation,
>) {
    if cell == 1 || cell == 5 {
        (Some(Orientation::South), Some(Orientation::West))
    } else if cell == 3 || cell == 9 {
        (Some(Orientation::South), Some(Orientation::East))
    } else if cell == 19 || cell == 23 {
        (Some(Orientation::North), Some(Orientation::East))
    } else if cell == 21 || cell == 15 {
        (Some(Orientation::North), Some(Orientation::West))
    } else {
        (None, None)
    }
}

/// The purely geometric out-of-board directions of a cell: two for a
/// corner, one for an edge cell, none in the interior.
pub open spec fn base_forbidden(cell: int) -> (Option<Orientation>, Option<Orientation>) {
    if cell == 0 {
        (Some(Orientation::South), Some(Orientation::West))
    } else if cell == 4 {
        (Some(Orientation::South), Some(Orientation::East))
    } else if cell == 20 {
        (Some(Orientation::North), Some(Orientation::West))
    } else if cell == 24 {
        (Some(Orientation::North), Some(Orientation::East))
    } else if on_north_edge(cell) {
        (Some(Orientation::North), None)
    } else if on_east_edge(cell) {
        (Some(Orientation::East), None)
    } else if on_south_edge(cell) {
        (Some(Orientation::South), None)
    } else if on_west_edge(cell) {
        (Some(Orientation::West), None)
    } else {
        (None, None)
    }
}

/// The directions the piece at `cell` cannot face without its beam leaving
/// the board: board geometry, tightened when the first cell blocker on the
/// board stands on the edge beside the cell (a beam heading over a blocker
/// on the edge exits unhindered).  The centre cell is never restricted.
pub open spec fn spec_forbidden_orientations(cells: Seq<Option<Token>>, cell: int) -> (
    Option<Orientation>,
    Option<Orientation>,
) {
    if cell == 12 {
        (None, None)
    } else {
        match first_blocker(cells) {
            Some(b) => {
                let nb = blocker_neighbors(b);
                if nb.0 == Some(cell) || nb.1 == Some(cell) {
                    if on_north_edge(b) {
                        (Some(Orientation::North), None)
                    } else if on_east_edge(b) {
                        (Some(Orientation::East), None)
                    } else if on_south_edge(b) {
                        (Some(Orientation::South), None)
                    } else if on_west_edge(b) {
                        (Some(Orientation::West), None)
                    } else {
                        corner_blocker_forbidden(cell)
                    }
                } else {
                    base_forbidden(cell)
                }
            },
            None => base_forbidden(cell),
        }
    }
}

/// Whether rotation ordinal `i` is ruled out by the forbidden directions
/// `f`.  For a piece with 180-degree symmetry (`fold_180`), ordinal `i`
/// stands for both directions with that parity, so a forbidden direction
/// rules out the ordinal of its parity.
pub open spec fn orientation_excluded(
    f: (Option<Orientation>, Option<Orientation>),
    fold_180: bool,
    i: usize,
) -> bool {
    if fold_180 {
        ||| (f.0 matches Some(d) && crate::orientation::ord_of(d) % 2 == i as int)
        ||| (f.1 matches Some(d) && crate::orientation::ord_of(d) % 2 == i as int)
    } else {
        ||| f.0 == Some(crate::orientation::orientation_of(i as int))
        ||| f.1 == Some(crate::orientation::orientation_of(i as int))
    }
}

/// The rotation ordinals branch generation tries for a piece of type
/// `type_` at `cell`: the type's symmetry range, pruned for pieces that
/// cannot face out of the board (the laser, the checkpoint, and a target
/// mirror that must be lit — an off-board-facing target can never light).
pub open spec fn spec_allowed_orientation_indices(
    cells: Seq<Option<Token>>,
    type_: TokenType,
    cell: int,
) -> Seq<usize> {
    let f = spec_forbidden_orientations(cells, cell);
    match type_ {
        TokenType::Laser => crate::token::spec_orientation_range(type_).filter(
            |i: usize| !orientation_excluded(f, false, i),
        ),
        TokenType::Checkpoint => crate::token::spec_orientation_range(type_).filter(
            |i: usize| !orientation_excluded(f, true, i),
        ),
        TokenType::TargetMirror => if cells[cell] matches Some(t) && t.must_light {
            crate::token::spec_orientation_range(type_).filter(
                |i: usize| !orientation_excluded(f, false, i),
            )
        } else {
            crate::token::spec_orientation_range(type_)
        },
        _ => crate::token::spec_orientation_range(type_),
    }
}

/// Unfolding step for `first_blocker_from` at index `i`.
pub proof fn lemma_first_blocker_from_unfold(cells: Seq<Option<Token>>, i: int)
    requires
        0 <= i < cells.len(),
    ensures
        first_blocker_from(cells, i) == if cells[i] matches Some(t) && t.type_
            == TokenType::CellBlocker {
            Some(i)
        } else {
            first_blocker_from(cells, i + 1)
        },
{
}

} // verus!
