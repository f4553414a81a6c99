//! The triangular scoring matrix: positions, per-cell nodes and trace
//! alternatives, stored as a flat arena indexed by `(i, j)`.

use crate::matrix_builder::UnpairedType;
use vstd::pervasive::VecAdditionalExecFns;
use vstd::prelude::*;

verus! {

/// An interval `[i, j)` of the sequence, with `0 <= i <= j <= n`.
/// Diagonal positions (`i == j`) denote the empty interval.
#[derive(Copy, Clone, Debug, PartialEq, Eq, Structural, Hash)]
pub struct Position {
    pub i: usize,
    pub j: usize,
}

/// One recurrence alternative that attains a cell's optimal value.
#[derive(Copy, Clone, Debug, PartialEq, Eq, Structural)]
pub enum TraceType {
    /// The endpoints of the interval pair with each other; the child is the
    /// interval shrunk by one position on both sides.
    Complementary(Position),
    /// One endpoint stays unpaired; the child drops that position.
    Unpaired(Position),
    /// The interval splits into two independent sub-intervals.
    Decomposition(Position, Position),
}

/// The tied recurrence choices recorded for one cell.
pub type Trace = Vec<TraceType>;

impl Position {
    /// Builds the position for row `i` and column `j`.
    pub fn from(i: usize, j: usize) -> (p: Position)
        ensures
            p.i == i && p.j == j,
    {
        Position { i, j }
    }

    /// The relation produced by a complementary step: `pos` is `self`
    /// shrunk by one position on each side.
    pub fn is_diagonal_relation(&self, pos: &Position) -> (r: bool)
        ensures
            r == spec_diagonal_relation(*self, *pos),
    {
        pos.i > self.i && pos.i - self.i == 1 && self.j > pos.j && self.j - pos.j == 1
    }

    /// True for the empty interval, the base case of the recurrence.
    pub fn is_diagonal(&self) -> (r: bool)
        ensures
            r == (self.i == self.j),
    {
        self.i == self.j
    }

    /// The child interval when one endpoint stays unpaired.
    pub fn get_unpaired(&self, unpaired_type: UnpairedType) -> (p: Position)
        requires
            unpaired_type is Left ==> self.j >= 1,
            unpaired_type is Bottom ==> self.i < usize::MAX,
        ensures
            unpaired_type is Left ==> p == (Position { i: self.i, j: (self.j - 1) as usize }),
            unpaired_type is Bottom ==> p == (Position { i: (self.i + 1) as usize, j: self.j }),
    {
        match unpaired_type {
            UnpairedType::Left => Position { i: self.i, j: self.j - 1 },
            UnpairedType::Bottom => Position { i: self.i + 1, j: self.j },
        }
    }

    /// The two child intervals when the interval splits at `k`.
    pub fn get_decomposition(&self, k: usize) -> (ps: (Position, Position))
        ensures
            ps.0 == (Position { i: self.i, j: k }),
            ps.1 == (Position { i: k, j: self.j }),
    {
        let pos1 = Position { i: self.i, j: k };
        let pos2 = Position { i: k, j: self.j };
        (pos1, pos2)
    }

    /// The child interval when the endpoints pair with each other.
    pub fn get_complementary(&self) -> (p: Position)
        requires
            self.i < usize::MAX,
            self.j >= 1,
        ensures
            p == (Position { i: (self.i + 1) as usize, j: (self.j - 1) as usize }),
    {
        Position { i: self.i + 1, j: self.j - 1 }
    }
}

/// `q` lies one step inward of `p` on both sides: exactly the pairs of
/// consecutive path positions that a complementary step produces.
pub open spec fn spec_diagonal_relation(p: Position, q: Position) -> bool {
    p.i + 1 == q.i && p.j == q.j + 1
}

/// The position value for mathematical indices `i` and `j`.
pub open spec fn mk_pos(i: int, j: int) -> Position {
    Position { i: i as usize, j: j as usize }
}

/// One cell of the scoring matrix: the optimal pair count of its interval
/// and every recurrence branch that attains it.
#[derive(Clone, Debug)]
pub struct MatrixNode {
    /// The maximal number of base pairs achievable on the interval.
    pub value: usize,
    /// The interval this cell belongs to.
    pub position: Position,
    /// Every tied recurrence alternative; empty only for diagonal cells.
    pub trace: Trace,
}

/// The node a fresh matrix holds at `(i, j)`: score zero and no traces.
pub open spec fn is_initial_node(node: MatrixNode, i: int, j: int) -> bool {
    node.value == 0 && node.position == mk_pos(i, j) && node.trace@ == Seq::<TraceType>::empty()
}

/// A `(size + 1) x (size + 1)` triangular scoring matrix for a sequence of
/// `size` symbols, stored row-major in a flat arena. Cells are written once
/// by the fill pass and read-only afterwards.
pub struct Matrix {
    nodes: Vec<MatrixNode>,
    size: usize,
    params: Ghost<(Seq<char>, nat)>,
}

impl Matrix {
    /// The sequence length `n`; the matrix has `n + 1` rows and columns.
    pub closed spec fn spec_size(self) -> int {
        self.size as int
    }

    /// The sequence the matrix was last filled for.
    pub closed spec fn spec_seq(self) -> Seq<char> {
        self.params@.0
    }

    /// The minimal loop length the matrix was last filled for.
    pub closed spec fn spec_mll(self) -> nat {
        self.params@.1
    }

    /// The matrix holds, for the sequence and loop length it was filled
    /// for, the optimum and the tied traces of every interval.
    pub open spec fn is_filled(self) -> bool {
        crate::matrix_builder::matrix_filled(self, self.spec_seq(), self.spec_mll())
    }

    /// The arena holds exactly one node for every `(i, j)` with
    /// `0 <= i, j <= n`.
    pub closed spec fn wf(self) -> bool {
        self.nodes@.len() == (self.spec_size() + 1) * (self.spec_size() + 1)
    }

    /// The cell stored for the interval `(i, j)`.
    pub closed spec fn node_at(self, i: int, j: int) -> MatrixNode {
        self.nodes@[i * (self.spec_size() + 1) + j]
    }

    /// Every cell of a fresh matrix holds score zero and no traces.
    pub open spec fn all_initial(self) -> bool {
        forall|i: int, j: int|
            0 <= i <= self.spec_size() && 0 <= j <= self.spec_size() ==> is_initial_node(
                #[trigger] self.node_at(i, j),
                i,
                j,
            )
    }

    /// Every diagonal cell holds score zero and no traces: what the fill
    /// pass needs of the base cases it never writes.
    pub open spec fn diagonal_initial(self) -> bool {
        forall|ii: int|
            0 <= ii <= self.spec_size() ==> is_initial_node(#[trigger] self.node_at(ii, ii), ii, ii)
    }

    /// Builds the `(size + 1) x (size + 1)` matrix of initial cells.
    pub fn new(size: usize) -> (m: Matrix)
        requires
            (size + 1) * (size + 1) <= usize::MAX,
        ensures
            m.wf(),
            m.spec_size() == size,
            m.all_initial(),
    {
        proof {
            assert(size + 1 <= (size + 1) * (size + 1)) by (nonlinear_arith)
                requires
                    size >= 0,
            ;
        }
        let w = size + 1;
        let mut nodes: Vec<MatrixNode> = Vec::new();
        let mut i: usize = 0;
        while i < w
            invariant
                w == size + 1,
                (size + 1) * (size + 1) <= usize::MAX,
                i <= w,
                nodes@.len() == i * w,
                forall|r: int, c: int|
                    0 <= r < i && 0 <= c < w ==> is_initial_node(#[trigger] nodes@[r * w + c], r, c),
            decreases w - i,
        {
            let mut j: usize = 0;
            while j < w
                invariant
                    w == size + 1,
                    (size + 1) * (size + 1) <= usize::MAX,
                    i < w,
                    j <= w,
                    nodes@.len() == i * w + j,
                    forall|r: int, c: int|
                        0 <= r < i && 0 <= c < w ==> is_initial_node(#[trigger] nodes@[r * w + c], r, c),
                    forall|c: int|
                        0 <= c < j ==> is_initial_node(#[trigger] nodes@[i * w + c], i as int, c),
                decreases w - j,
            {
                proof {
                    lemma_arena_index_fits(w as int, i as int, j as int);
                    assert forall|r: int, c: int|
                        #![trigger r * (w as int) + c]
                        0 <= r < i && 0 <= c < w implies r * (w as int) + c < i as int * (
                    w as int) + j as int by {
                        lemma_arena_prefix(w as int, r, c, i as int, j as int);
                    }
                }
                nodes.push(
                    MatrixNode {
                        value: 0,
                        position: Position { i, j },
                        trace: Vec::new(),
                    },
                );
                j += 1;
            }
            proof {
                assert((i + 1) * w == i * w + w) by (nonlinear_arith);
            }
            i += 1;
        }
        proof {
            assert(i * w == w * w) by (nonlinear_arith)
                requires
                    i == w,
            ;
        }
        Matrix { nodes, size, params: Ghost((Seq::empty(), 0)) }
    }

    /// The number of cells in the arena, `(n + 1) * (n + 1)`.
    pub fn cell_count(&self) -> (c: usize)
        requires
            self.wf(),
        ensures
            c == (self.spec_size() + 1) * (self.spec_size() + 1),
    {
        self.nodes.len()
    }

    /// The number of columns, `n + 1`.
    pub fn columns(&self) -> (c: usize)
        requires
            self.wf(),
        ensures
            c == self.spec_size() + 1,
    {
        let l = self.nodes.len();
        proof {
            lemma_size_plus_one_fits(self.size as int, l as int);
        }
        self.size + 1
    }

    /// The number of rows, `n + 1`.
    pub fn rows(&self) -> (r: usize)
        requires
            self.wf(),
        ensures
            r == self.spec_size() + 1,
    {
        self.columns()
    }

    /// Read access to the cell of `index`.
    pub fn node(&self, index: Position) -> (node: &MatrixNode)
        requires
            self.wf(),
            index.i <= self.spec_size(),
            index.j <= self.spec_size(),
        ensures
            *node == self.node_at(index.i as int, index.j as int),
    {
        let l = self.nodes.len();
        proof {
            lemma_size_plus_one_fits(self.size as int, l as int);
            lemma_arena_index_fits(self.size as int + 1, index.i as int, index.j as int);
        }
        &self.nodes[index.i * (self.size + 1) + index.j]
    }

    /// Overwrites the cell of `index`; every other cell is unchanged.
    pub fn set_node(&mut self, index: Position, node: MatrixNode)
        requires
            old(self).wf(),
            index.i <= old(self).spec_size(),
            index.j <= old(self).spec_size(),
        ensures
            final(self).wf(),
            final(self).spec_size() == old(self).spec_size(),
            final(self).node_at(index.i as int, index.j as int) == node,
            forall|r: int, c: int|
                0 <= r <= old(self).spec_size() && 0 <= c <= old(self).spec_size() && !(r
                    == index.i as int && c == index.j as int) ==> #[trigger] final(self).node_at(
                    r,
                    c,
                ) == old(self).node_at(r, c),
    {
        let l = self.nodes.len();
        proof {
            lemma_size_plus_one_fits(self.size as int, l as int);
            lemma_arena_index_fits(self.size as int + 1, index.i as int, index.j as int);
            assert forall|r: int, c: int|
                #![trigger r * (self.spec_size() + 1) + c]
                0 <= r <= self.spec_size() && 0 <= c <= self.spec_size() && !(r == index.i as int
                    && c == index.j as int) implies 0 <= r * (self.spec_size() + 1) + c
                < self.nodes@.len() && r * (self.spec_size() + 1) + c != index.i as int * (
            self.spec_size() + 1) + index.j as int by {
                lemma_arena_index_fits(self.spec_size() + 1, r, c);
                lemma_arena_index_injective(
                    self.spec_size() + 1,
                    r,
                    c,
                    index.i as int,
                    index.j as int,
                );
            }
        }
        let idx = index.i * (self.size + 1) + index.j;
        self.nodes.set(idx, node);
    }

    /// Runs the builder's fill pass over this matrix.
    pub fn fill(&mut self, builder: &crate::matrix_builder::NussinovMatrixBuilder)
        requires
            old(self).wf(),
            old(self).diagonal_initial(),
            old(self).spec_size() == builder.spec_seq().len(),
        ensures
            final(self).is_filled(),
            final(self).spec_seq() == builder.spec_seq(),
            final(self).spec_mll() == builder.spec_mll(),
            final(self).spec_size() == old(self).spec_size(),
            forall|r: int, c: int|
                0 <= c < r <= old(self).spec_size() ==> #[trigger] final(self).node_at(r, c)
                    == old(self).node_at(r, c),
    {
        builder.fill(self);
        let ghost mid = *self;
        self.params = Ghost((builder.spec_seq(), builder.spec_mll()));
        proof {
            assert forall|ii: int, jj: int|
                0 <= ii <= jj <= self.spec_size() && jj - ii < self.spec_size()
                    + 1 implies crate::matrix_builder::cell_ok(
                builder.spec_seq(),
                builder.spec_mll(),
                #[trigger] self.node_at(ii, jj),
                ii,
                jj,
            ) by {
                assert(self.node_at(ii, jj) == mid.node_at(ii, jj));
            }
            assert forall|r: int, c: int| 0 <= c < r <= self.spec_size() implies #[trigger] self.node_at(
                r,
                c,
            ) == old(self).node_at(r, c) by {
                assert(self.node_at(r, c) == mid.node_at(r, c));
            }
        }
    }

    /// The root cell `(0, n)`, covering the whole sequence.
    pub fn root(&self) -> (node: &MatrixNode)
        requires
            self.wf(),
        ensures
            *node == self.node_at(0, self.spec_size()),
    {
        let c = self.columns();
        self.node(Position::from(0, c - 1))
    }
}

/// Row-major indices stay inside a `w x w` arena.
pub proof fn lemma_arena_index_fits(w: int, i: int, j: int)
    requires
        0 <= i < w,
        0 <= j < w,
    ensures
        0 <= i * w + j < w * w,
{
    assert(0 <= i * w + j < w * w) by (nonlinear_arith)
        requires
            0 <= i < w,
            0 <= j < w,
    ;
}

/// Row-major order: any cell strictly before `(i2, j2)` has a smaller
/// flat index.
proof fn lemma_arena_prefix(w: int, i1: int, j1: int, i2: int, j2: int)
    requires
        0 <= i1 < i2,
        0 <= j1 < w,
        0 <= j2,
    ensures
        i1 * w + j1 < i2 * w + j2,
{
    assert(i1 * w + j1 < i2 * w + j2) by (nonlinear_arith)
        requires
            0 <= i1 < i2,
            0 <= j1 < w,
            0 <= j2,
    ;
}

/// Distinct cells of a `w x w` arena live at distinct flat indices.
pub proof fn lemma_arena_index_injective(w: int, i1: int, j1: int, i2: int, j2: int)
    requires
        0 <= i1 < w,
        0 <= j1 < w,
        0 <= i2 < w,
        0 <= j2 < w,
        !(i1 == i2 && j1 == j2),
    ensures
        i1 * w + j1 != i2 * w + j2,
{
    assert(i1 * w + j1 != i2 * w + j2) by (nonlinear_arith)
        requires
            0 <= i1 < w,
            0 <= j1 < w,
            0 <= i2 < w,
            0 <= j2 < w,
            !(i1 == i2 && j1 == j2),
    ;
}

/// A well-formed arena forces `size + 1` to fit in a machine word.
proof fn lemma_size_plus_one_fits(size: int, len: int)
    requires
        len == (size + 1) * (size + 1),
        len <= usize::MAX,
        size >= 0,
    ensures
        size + 1 <= usize::MAX,
{
    assert(size + 1 <= (size + 1) * (size + 1)) by (nonlinear_arith)
        requires
            size >= 0,
    ;
}

} // verus!
