//! Fills the scoring matrix in dependency order: all cells of a smaller gap
//! `j - i` before any cell of a larger one.

use crate::matrix::is_initial_node;
use crate::matrix::mk_pos;
use crate::matrix::Matrix;
use crate::matrix::MatrixNode;
use crate::matrix::Position;
use crate::matrix::Trace;
use crate::matrix::TraceType;
use crate::nussinov::complementary;
use crate::nussinov::RNASequence;
use vstd::prelude::*;

verus! {

/// Which endpoint an unpaired step drops.
pub enum UnpairedType {
    /// Drop the rightmost position: child `(i, j - 1)`.
    Left,
    /// Drop the leftmost position: child `(i + 1, j)`.
    Bottom,
}

/// The larger of two pair counts.
pub open spec fn nat_max(a: nat, b: nat) -> nat {
    if a >= b {
        a
    } else {
        b
    }
}

/// The endpoints of `[i, j)` may pair: the interval is wide enough for the
/// loop-length constraint and its last and first symbols are complementary.
pub open spec fn pair_allowed(s: Seq<char>, mll: nat, i: int, j: int) -> bool {
    &&& 0 <= i < j <= s.len()
    &&& j - i > mll
    &&& complementary(s[j - 1], s[i])
}

/// The optimal number of base pairs on the interval `[i, j)`: the maximum
/// over the four recurrence alternatives, with `0` on empty or invalid
/// intervals.
pub open spec fn dp(s: Seq<char>, mll: nat, i: int, j: int) -> nat
    decreases j - i, j - i + 1,
{
    if 0 <= i && i < j && j <= s.len() {
        let base = nat_max(dp(s, mll, i, j - 1), dp(s, mll, i + 1, j));
        let with_pair = if pair_allowed(s, mll, i, j) {
            nat_max(base, dp(s, mll, i + 1, j - 1) + 1)
        } else {
            base
        };
        nat_max(with_pair, best_split(s, mll, i, j, j - 1))
    } else {
        0
    }
}

/// The best decomposition value over the split points `t` with
/// `i + 2 <= t < k` (and `t <= j - 2`); `0` when no split point qualifies.
pub open spec fn best_split(s: Seq<char>, mll: nat, i: int, j: int, k: int) -> nat
    decreases j - i, k - i,
{
    if 0 <= i && i + 2 <= k - 1 && k - 1 <= j - 2 && j <= s.len() {
        nat_max(best_split(s, mll, i, j, k - 1), dp(s, mll, i, k - 1) + dp(s, mll, k - 1, j))
    } else {
        0
    }
}

/// Every recurrence alternative of the cell `(i, j)` paired with its value,
/// in the order the fill pass considers them: complementary, unpaired left,
/// unpaired bottom, then decompositions by ascending split point.
pub open spec fn trace_candidates(s: Seq<char>, mll: nat, i: int, j: int) -> Seq<(TraceType, nat)> {
    let compl = if pair_allowed(s, mll, i, j) {
        seq![
            (TraceType::Complementary(mk_pos(i + 1, j - 1)), (dp(s, mll, i + 1, j - 1) + 1) as nat),
        ]
    } else {
        Seq::empty()
    };
    let unpaired = seq![
        (TraceType::Unpaired(mk_pos(i, j - 1)), dp(s, mll, i, j - 1)),
        (TraceType::Unpaired(mk_pos(i + 1, j)), dp(s, mll, i + 1, j)),
    ];
    compl + unpaired + decomp_candidates(s, mll, i, j, j - 1)
}

/// The decomposition alternatives of `(i, j)` for the split points `t`
/// with `i + 2 <= t < k`, in ascending order, each paired with its value.
pub open spec fn decomp_candidates(s: Seq<char>, mll: nat, i: int, j: int, k: int) -> Seq<
    (TraceType, nat),
>
    decreases k - i,
{
    if 0 <= i && i + 2 <= k - 1 && k - 1 <= j - 2 && j <= s.len() {
        decomp_candidates(s, mll, i, j, k - 1) + seq![
            (TraceType::Decomposition(mk_pos(i, k - 1), mk_pos(k - 1, j)), dp(s, mll, i, k - 1)
                + dp(s, mll, k - 1, j)),
        ]
    } else {
        Seq::empty()
    }
}

/// The alternatives of `cands` whose value equals `m`, in order.
pub open spec fn kept_traces(cands: Seq<(TraceType, nat)>, m: nat) -> Seq<TraceType>
    decreases cands.len(),
{
    if cands.len() == 0 {
        Seq::empty()
    } else {
        let head = if cands[0].1 == m {
            seq![cands[0].0]
        } else {
            Seq::<TraceType>::empty()
        };
        head + kept_traces(cands.drop_first(), m)
    }
}

/// The trace the fill pass records for the cell `(i, j)`: every alternative
/// whose value attains the optimum, in consideration order.
pub open spec fn traces_spec(s: Seq<char>, mll: nat, i: int, j: int) -> Seq<TraceType> {
    kept_traces(trace_candidates(s, mll, i, j), dp(s, mll, i, j))
}

/// The largest value among a list of alternatives, `0` for an empty list.
pub open spec fn candidates_max(cands: Seq<(TraceType, nat)>) -> nat
    decreases cands.len(),
{
    if cands.len() == 0 {
        0
    } else {
        nat_max(cands[0].1, candidates_max(cands.drop_first()))
    }
}

/// The maximum distributes over concatenation of alternative lists.
proof fn lemma_candidates_max_concat(a: Seq<(TraceType, nat)>, b: Seq<(TraceType, nat)>)
    ensures
        candidates_max(a + b) == nat_max(candidates_max(a), candidates_max(b)),
    decreases a.len(),
{
    if a.len() == 0 {
        assert(a + b =~= b);
    } else {
        assert((a + b).drop_first() =~= a.drop_first() + b);
        lemma_candidates_max_concat(a.drop_first(), b);
    }
}

/// The filter distributes over concatenation of alternative lists.
proof fn lemma_kept_traces_concat(a: Seq<(TraceType, nat)>, b: Seq<(TraceType, nat)>, m: nat)
    ensures
        kept_traces(a + b, m) == kept_traces(a, m) + kept_traces(b, m),
    decreases a.len(),
{
    if a.len() == 0 {
        assert(a + b =~= b);
        assert(kept_traces(a, m) + kept_traces(b, m) =~= kept_traces(b, m));
    } else {
        assert((a + b).drop_first() =~= a.drop_first() + b);
        lemma_kept_traces_concat(a.drop_first(), b, m);
        assert(kept_traces(a + b, m) =~= kept_traces(a, m) + kept_traces(b, m));
    }
}

/// The decomposition alternatives up to `k` attain `best_split` as their
/// maximum.
pub proof fn lemma_decomp_candidates_max(s: Seq<char>, mll: nat, i: int, j: int, k: int)
    ensures
        candidates_max(decomp_candidates(s, mll, i, j, k)) == best_split(s, mll, i, j, k),
    decreases k - i,
{
    if 0 <= i && i + 2 <= k - 1 && k - 1 <= j - 2 && j <= s.len() {
        let last = seq![
            (TraceType::Decomposition(mk_pos(i, k - 1), mk_pos(k - 1, j)), dp(s, mll, i, k - 1)
                + dp(s, mll, k - 1, j)),
        ];
        let rest = decomp_candidates(s, mll, i, j, k - 1);
        lemma_decomp_candidates_max(s, mll, i, j, k - 1);
        lemma_candidates_max_concat(rest, last);
        reveal_with_fuel(candidates_max, 3);
        assert(last.drop_first() =~= Seq::<(TraceType, nat)>::empty());
    }
}

/// Each pair consumes two positions: the optimum never exceeds the
/// interval width, and empty or invalid intervals score zero.
pub proof fn lemma_dp_bound(s: Seq<char>, mll: nat, i: int, j: int)
    ensures
        i <= j ==> dp(s, mll, i, j) <= j - i,
        !(0 <= i && i < j && j <= s.len()) ==> dp(s, mll, i, j) == 0,
    decreases j - i, j - i + 1,
{
    if 0 <= i && i < j && j <= s.len() {
        lemma_dp_bound(s, mll, i, j - 1);
        lemma_dp_bound(s, mll, i + 1, j);
        if pair_allowed(s, mll, i, j) {
            lemma_dp_bound(s, mll, i + 1, j - 1);
        }
        lemma_best_split_bound(s, mll, i, j, j - 1);
    }
}

/// No alternative is kept for a target strictly above the maximum value.
proof fn lemma_kept_traces_below(cands: Seq<(TraceType, nat)>, m: nat)
    requires
        candidates_max(cands) < m,
    ensures
        kept_traces(cands, m) == Seq::<TraceType>::empty(),
    decreases cands.len(),
{
    if cands.len() > 0 {
        lemma_kept_traces_below(cands.drop_first(), m);
        assert(kept_traces(cands, m) =~= Seq::<TraceType>::empty());
    }
}

/// The node of `(i, j)` records the optimum of its interval and exactly the
/// tied alternatives, and remembers its own position.
pub open spec fn cell_ok(s: Seq<char>, mll: nat, node: MatrixNode, i: int, j: int) -> bool {
    &&& node.value == dp(s, mll, i, j)
    &&& node.position == mk_pos(i, j)
    &&& node.trace@ == if i == j {
        Seq::<TraceType>::empty()
    } else {
        traces_spec(s, mll, i, j)
    }
}

/// Every cell whose gap `j - i` is below `bound` is correctly filled.
pub open spec fn cells_filled_below(m: Matrix, s: Seq<char>, mll: nat, bound: int) -> bool {
    forall|ii: int, jj: int|
        0 <= ii <= jj <= m.spec_size() && jj - ii < bound ==> cell_ok(
            s,
            mll,
            #[trigger] m.node_at(ii, jj),
            ii,
            jj,
        )
}

/// The whole matrix is filled for the sequence `s` and loop length `mll`.
pub open spec fn matrix_filled(m: Matrix, s: Seq<char>, mll: nat) -> bool {
    &&& m.wf()
    &&& m.spec_size() == s.len()
    &&& cells_filled_below(m, s, mll, m.spec_size() + 1)
}

/// Any decomposition value is bounded by the interval width.
pub proof fn lemma_best_split_bound(s: Seq<char>, mll: nat, i: int, j: int, k: int)
    ensures
        i <= j ==> best_split(s, mll, i, j, k) <= j - i,
        !(0 <= i && i < j && j <= s.len()) ==> best_split(s, mll, i, j, k) == 0,
    decreases j - i, k - i,
{
    if 0 <= i && i + 2 <= k - 1 && k - 1 <= j - 2 && j <= s.len() {
        lemma_dp_bound(s, mll, i, k - 1);
        lemma_dp_bound(s, mll, k - 1, j);
        lemma_best_split_bound(s, mll, i, j, k - 1);
    }
}


/// Computes every cell of the scoring matrix from the sequence and the
/// minimal loop length.
#[derive(Debug)]
pub struct NussinovMatrixBuilder<'s> {
    sequence: &'s RNASequence,
    minimal_loop_length: usize,
}

impl NussinovMatrixBuilder<'_> {
    /// The symbols the builder scores.
    pub closed spec fn spec_seq(self) -> Seq<char> {
        self.sequence@
    }

    /// The minimal loop length the builder enforces.
    pub closed spec fn spec_mll(self) -> nat {
        self.minimal_loop_length as nat
    }

    /// Builds a fill pass for `sequence` under `minimal_loop_length`.
    pub fn new(sequence: &RNASequence, minimal_loop_length: usize) -> (b: NussinovMatrixBuilder)
        ensures
            b.spec_seq() == sequence@,
            b.spec_mll() == minimal_loop_length,
    {
        NussinovMatrixBuilder { sequence, minimal_loop_length }
    }

    /// The complementary alternative of `pos`, when its endpoints may pair:
    /// the inward child and its score plus one.
    fn get_complementary(&self, matrix: &Matrix, pos: &Position) -> (r: Option<(TraceType, usize)>)
        requires
            matrix.wf(),
            matrix.spec_size() == self.spec_seq().len(),
            pos.i < pos.j <= matrix.spec_size(),
            cells_filled_below(*matrix, self.spec_seq(), self.spec_mll(), pos.j - pos.i),
        ensures
            r is Some <==> pair_allowed(
                self.spec_seq(),
                self.spec_mll(),
                pos.i as int,
                pos.j as int,
            ),
            r is Some ==> (r->0).0 == TraceType::Complementary(mk_pos(pos.i + 1, pos.j - 1))
                && (r->0).1 == dp(self.spec_seq(), self.spec_mll(), pos.i + 1, pos.j - 1) + 1,
    {
        let is_complement = match self.sequence.is_complement(pos) {
            Ok(b) => b,
            Err(_) => false,
        };
        if is_complement && pos.j - pos.i > self.minimal_loop_length {
            proof {
                lemma_dp_bound(self.spec_seq(), self.spec_mll(), pos.i + 1, pos.j - 1);
            }
            let node = matrix.node(pos.get_complementary());
            Some((TraceType::Complementary(node.position), node.value + 1))
        } else {
            None
        }
    }

    /// The unpaired alternative of `pos` for the chosen endpoint: the child
    /// that drops it, and the child's own score.
    fn get_unpaired(matrix: &Matrix, pos: &Position, unpaired_type: UnpairedType) -> (r: Option<
        (TraceType, usize),
    >)
        requires
            matrix.wf(),
            pos.i < pos.j <= matrix.spec_size(),
        ensures
            r is Some,
            unpaired_type is Left ==> (r->0).0 == TraceType::Unpaired(
                matrix.node_at(pos.i as int, pos.j - 1).position,
            ) && (r->0).1 == matrix.node_at(pos.i as int, pos.j - 1).value,
            unpaired_type is Bottom ==> (r->0).0 == TraceType::Unpaired(
                matrix.node_at(pos.i + 1, pos.j as int).position,
            ) && (r->0).1 == matrix.node_at(pos.i + 1, pos.j as int).value,
    {
        let node = matrix.node(pos.get_unpaired(unpaired_type));
        Some((TraceType::Unpaired(node.position), node.value))
    }

    /// All decomposition alternatives of `pos` that attain the best
    /// decomposition value, by ascending split point; `None` when the
    /// interval has no split point.
    fn get_decomposition(&self, matrix: &Matrix, pos: &Position) -> (r: Option<
        Vec<(TraceType, usize)>,
    >)
        requires
            matrix.wf(),
            matrix.spec_size() == self.spec_seq().len(),
            pos.i < pos.j <= matrix.spec_size(),
            cells_filled_below(*matrix, self.spec_seq(), self.spec_mll(), pos.j - pos.i),
        ensures
            r is Some <==> pos.i + 4 <= pos.j,
            r is Some ==> {
                let bs = best_split(
                    self.spec_seq(),
                    self.spec_mll(),
                    pos.i as int,
                    pos.j as int,
                    pos.j - 1,
                );
                &&& r->0@.len() > 0
                &&& r->0@.map_values(|c: (TraceType, usize)| c.0) == kept_traces(
                    decomp_candidates(
                        self.spec_seq(),
                        self.spec_mll(),
                        pos.i as int,
                        pos.j as int,
                        pos.j - 1,
                    ),
                    bs,
                )
                &&& forall|t: int| 0 <= t < r->0@.len() ==> (#[trigger] r->0@[t]).1 == bs
            },
    {
        let ghost s = self.spec_seq();
        let ghost mll = self.spec_mll();
        let ghost i = pos.i as int;
        let ghost j = pos.j as int;
        if pos.j < 4 || pos.i > pos.j - 4 {
            proof {
                assert(decomp_candidates(s, mll, i, j, j - 1) =~= Seq::<(TraceType, nat)>::empty());
            }
            return None;
        }
        let mut value_max: usize = 0;
        let mut started: bool = false;
        let mut nodes_max: Vec<(TraceType, usize)> = Vec::new();
        let mut k: usize = pos.i + 2;
        proof {
            assert(decomp_candidates(s, mll, i, j, i + 2) =~= Seq::<(TraceType, nat)>::empty());
        }
        while k <= pos.j - 2
            invariant
                matrix.wf(),
                matrix.spec_size() == s.len(),
                s == self.spec_seq(),
                mll == self.spec_mll(),
                i == pos.i as int,
                j == pos.j as int,
                pos.i < pos.j <= matrix.spec_size(),
                pos.i + 4 <= pos.j,
                cells_filled_below(*matrix, s, mll, j - i),
                pos.i + 2 <= k <= pos.j - 1,
                started <==> k > pos.i + 2,
                value_max == candidates_max(decomp_candidates(s, mll, i, j, k as int)),
                value_max == best_split(s, mll, i, j, k as int),
                nodes_max@.map_values(|c: (TraceType, usize)| c.0) == kept_traces(
                    decomp_candidates(s, mll, i, j, k as int),
                    value_max as nat,
                ),
                forall|t: int| 0 <= t < nodes_max@.len() ==> (#[trigger] nodes_max@[t]).1 == value_max,
                k > pos.i + 2 ==> nodes_max@.len() > 0,
            decreases pos.j - k,
        {
            let (pos1, pos2) = pos.get_decomposition(k);
            let node1 = matrix.node(pos1);
            let node2 = matrix.node(pos2);
            proof {
                lemma_dp_bound(s, mll, i, k as int);
                lemma_dp_bound(s, mll, k as int, j);
            }
            let value = node1.value + node2.value;
            let trace = (TraceType::Decomposition(node1.position, node2.position), value);
            let ghost prefix = decomp_candidates(s, mll, i, j, k as int);
            let ghost extended = decomp_candidates(s, mll, i, j, k + 1 as int);
            proof {
                let cand = (
                    TraceType::Decomposition(mk_pos(i, k as int), mk_pos(k as int, j)),
                    (dp(s, mll, i, k as int) + dp(s, mll, k as int, j)) as nat,
                );
                assert(extended == prefix + seq![cand]);
                lemma_candidates_max_concat(prefix, seq![cand]);
                lemma_kept_traces_concat(prefix, seq![cand], nat_max(value_max as nat, cand.1));
                reveal_with_fuel(candidates_max, 3);
                reveal_with_fuel(kept_traces, 3);
                assert(seq![cand].drop_first() =~= Seq::<(TraceType, nat)>::empty());
            }
            if !started || value > value_max {
                proof {
                    if !started {
                        assert(prefix =~= Seq::<(TraceType, nat)>::empty());
                    }
                    if value > value_max {
                        lemma_kept_traces_below(prefix, value as nat);
                    }
                }
                started = true;
                value_max = value;
                let mut fresh: Vec<(TraceType, usize)> = Vec::new();
                fresh.push(trace);
                nodes_max = fresh;
                proof {
                    assert(nodes_max@.map_values(|c: (TraceType, usize)| c.0) =~= kept_traces(
                        extended,
                        value_max as nat,
                    ));
                }
            } else if value == value_max {
                nodes_max.push(trace);
                proof {
                    assert(nodes_max@.map_values(|c: (TraceType, usize)| c.0) =~= kept_traces(
                        extended,
                        value_max as nat,
                    ));
                }
            } else {
                proof {
                    assert(nodes_max@.map_values(|c: (TraceType, usize)| c.0) =~= kept_traces(
                        extended,
                        value_max as nat,
                    ));
                }
            }
            k += 1;
        }
        Some(nodes_max)
    }
}

impl NussinovMatrixBuilder<'_> {
    /// The optimal value of the cell `pos` together with every recurrence
    /// alternative that attains it, in consideration order.
    #[verifier::rlimit(100)]
    fn determine_max(&self, matrix: &Matrix, pos: &Position) -> (r: (Trace, usize))
        requires
            matrix.wf(),
            matrix.spec_size() == self.spec_seq().len(),
            pos.i < pos.j <= matrix.spec_size(),
            cells_filled_below(*matrix, self.spec_seq(), self.spec_mll(), pos.j - pos.i),
        ensures
            r.1 == dp(self.spec_seq(), self.spec_mll(), pos.i as int, pos.j as int),
            r.0@ == traces_spec(self.spec_seq(), self.spec_mll(), pos.i as int, pos.j as int),
    {
        let ghost s = self.spec_seq();
        let ghost mll = self.spec_mll();
        let ghost i = pos.i as int;
        let ghost j = pos.j as int;
        let ghost dpv = dp(s, mll, i, j);
        let compl = self.get_complementary(matrix, pos);
        let unp_left = NussinovMatrixBuilder::get_unpaired(matrix, pos, UnpairedType::Left);
        let unp_bottom = NussinovMatrixBuilder::get_unpaired(matrix, pos, UnpairedType::Bottom);
        let decomp = self.get_decomposition(matrix, pos);
        proof {
            assert(cell_ok(s, mll, matrix.node_at(i, j - 1), i, j - 1));
            assert(cell_ok(s, mll, matrix.node_at(i + 1, j), i + 1, j));
        }
        let mut max: usize = 0;
        if let Some(c) = &compl {
            if c.1 > max {
                max = c.1;
            }
        }
        if let Some(u) = &unp_left {
            if u.1 > max {
                max = u.1;
            }
        }
        if let Some(u) = &unp_bottom {
            if u.1 > max {
                max = u.1;
            }
        }
        if let Some(d) = &decomp {
            let first = d[0];
            if first.1 > max {
                max = first.1;
            }
        }
        proof {
            if !(pos.i + 4 <= pos.j) {
                assert(best_split(s, mll, i, j, j - 1) == 0);
            }
            assert(max == dpv);
        }
        let ghost compl_cands = if pair_allowed(s, mll, i, j) {
            seq![
                (TraceType::Complementary(mk_pos(i + 1, j - 1)), (dp(s, mll, i + 1, j - 1)
                    + 1) as nat),
            ]
        } else {
            Seq::<(TraceType, nat)>::empty()
        };
        let ghost unp_cands = seq![
            (TraceType::Unpaired(mk_pos(i, j - 1)), dp(s, mll, i, j - 1)),
            (TraceType::Unpaired(mk_pos(i + 1, j)), dp(s, mll, i + 1, j)),
        ];
        let ghost dec_cands = decomp_candidates(s, mll, i, j, j - 1);
        proof {
            lemma_kept_traces_concat(compl_cands + unp_cands, dec_cands, dpv);
            lemma_kept_traces_concat(compl_cands, unp_cands, dpv);
            reveal_with_fuel(kept_traces, 4);
            assert(unp_cands.drop_first() =~= seq![
                (TraceType::Unpaired(mk_pos(i + 1, j)), dp(s, mll, i + 1, j)),
            ]);
            if pair_allowed(s, mll, i, j) {
                assert(compl_cands.drop_first() =~= Seq::<(TraceType, nat)>::empty());
            }
        }
        let mut trace: Trace = Vec::new();
        if let Some(c) = compl {
            if c.1 == max {
                trace.push(c.0);
            }
        }
        proof {
            assert(trace@ =~= kept_traces(compl_cands, dpv));
        }
        if let Some(u) = unp_left {
            if u.1 == max {
                trace.push(u.0);
            }
        }
        if let Some(u) = unp_bottom {
            if u.1 == max {
                trace.push(u.0);
            }
        }
        proof {
            assert(trace@ =~= kept_traces(compl_cands, dpv) + kept_traces(unp_cands, dpv));
        }
        let ghost base = trace@;
        if let Some(d) = decomp {
            let first = d[0];
            if first.1 == max {
                let mut t: usize = 0;
                while t < d.len()
                    invariant
                        t <= d.len(),
                        trace@ == base + d@.subrange(0, t as int).map_values(
                            |c: (TraceType, usize)| c.0,
                        ),
                    decreases d.len() - t,
                {
                    let c = d[t];
                    trace.push(c.0);
                    proof {
                        assert(d@.subrange(0, t + 1).map_values(|c: (TraceType, usize)| c.0) =~= d@
                            .subrange(0, t as int).map_values(|c: (TraceType, usize)| c.0).push(
                            d@[t as int].0,
                        ));
                    }
                    t += 1;
                }
                proof {
                    assert(d@.subrange(0, d@.len() as int) =~= d@);
                    assert(trace@ =~= base + kept_traces(dec_cands, dpv));
                }
            } else {
                proof {
                    lemma_decomp_candidates_max(s, mll, i, j, j - 1);
                    lemma_kept_traces_below(dec_cands, dpv);
                }
            }
        } else {
            proof {
                assert(dec_cands =~= Seq::<(TraceType, nat)>::empty());
            }
        }
        proof {
            assert(trace@ =~= traces_spec(s, mll, i, j));
        }
        (trace, max)
    }

    /// Fills every cell in dependency order: all cells of gap `g` before any
    /// cell of gap `g + 1`, so each recurrence reads finished cells only.
    /// Only the upper triangle is written: every cell below the diagonal
    /// keeps its prior state.
    pub fn fill(&self, matrix: &mut Matrix)
        requires
            old(matrix).wf(),
            old(matrix).diagonal_initial(),
            old(matrix).spec_size() == self.spec_seq().len(),
        ensures
            matrix_filled(*final(matrix), self.spec_seq(), self.spec_mll()),
            forall|r: int, c: int|
                0 <= c < r <= old(matrix).spec_size() ==> #[trigger] final(matrix).node_at(r, c)
                    == old(matrix).node_at(r, c),
    {
        let ghost m0 = *matrix;
        let ghost s = self.spec_seq();
        let ghost mll = self.spec_mll();
        let columns = matrix.columns();
        let n = columns - 1;
        proof {
            assert forall|ii: int, jj: int|
                0 <= ii <= jj <= matrix.spec_size() && jj - ii < 1 implies cell_ok(
                s,
                mll,
                #[trigger] matrix.node_at(ii, jj),
                ii,
                jj,
            ) by {
                assert(is_initial_node(matrix.node_at(ii, jj), ii, jj));
            }
        }
        let mut gap: usize = 1;
        while gap <= n
            invariant
                matrix.wf(),
                matrix.spec_size() == n,
                n == s.len(),
                s == self.spec_seq(),
                mll == self.spec_mll(),
                1 <= gap <= n + 1,
                n + 1 <= usize::MAX,
                cells_filled_below(*matrix, s, mll, gap as int),
                forall|r: int, c: int|
                    0 <= c < r <= n ==> #[trigger] matrix.node_at(r, c) == m0.node_at(r, c),
            decreases n - gap + 1,
        {
            let limit = n - gap;
            let mut ii: usize = 0;
            while ii <= limit
                invariant
                    matrix.wf(),
                    matrix.spec_size() == n,
                    n == s.len(),
                    s == self.spec_seq(),
                    mll == self.spec_mll(),
                    1 <= gap <= n,
                    limit == n - gap,
                    ii <= limit + 1,
                    cells_filled_below(*matrix, s, mll, gap as int),
                    forall|r: int, c: int|
                        0 <= c < r <= n ==> #[trigger] matrix.node_at(r, c) == m0.node_at(r, c),
                    forall|r: int|
                        0 <= r < ii ==> cell_ok(
                            s,
                            mll,
                            #[trigger] matrix.node_at(r, r + gap),
                            r,
                            r + gap,
                        ),
                decreases limit - ii + 1,
            {
                let pos = Position::from(ii, ii + gap);
                let r = self.determine_max(matrix, &pos);
                let node = MatrixNode { value: r.1, position: pos, trace: r.0 };
                matrix.set_node(pos, node);
                ii += 1;
            }
            proof {
                assert forall|r: int, c: int|
                    0 <= r <= c <= matrix.spec_size() && c - r < gap + 1 implies cell_ok(
                    s,
                    mll,
                    #[trigger] matrix.node_at(r, c),
                    r,
                    c,
                ) by {
                    if c - r == gap {
                        assert(cell_ok(s, mll, matrix.node_at(r, r + gap), r, r + gap));
                    }
                }
            }
            gap += 1;
        }
    }
}

/// The shape of one recorded alternative of the cell `(i, j)`: each trace
/// points at the child interval(s) the recurrence prescribes.
pub open spec fn trace_shape_ok(t: TraceType, i: int, j: int) -> bool {
    match t {
        TraceType::Complementary(q) => q == mk_pos(i + 1, j - 1) && i + 1 <= j - 1,
        TraceType::Unpaired(q) => q == mk_pos(i, j - 1) || q == mk_pos(i + 1, j),
        TraceType::Decomposition(q1, q2) => exists|k: int|
            i + 2 <= k <= j - 2 && q1 == mk_pos(i, k) && q2 == mk_pos(k, j),
    }
}

/// Filtering preserves any shape that all candidates have.
proof fn lemma_kept_traces_shape(cands: Seq<(TraceType, nat)>, m: nat, i: int, j: int)
    requires
        forall|x: int| 0 <= x < cands.len() ==> trace_shape_ok((#[trigger] cands[x]).0, i, j),
    ensures
        forall|x: int|
            0 <= x < kept_traces(cands, m).len() ==> trace_shape_ok(
                #[trigger] kept_traces(cands, m)[x],
                i,
                j,
            ),
    decreases cands.len(),
{
    if cands.len() > 0 {
        assert forall|x: int| 0 <= x < cands.drop_first().len() implies trace_shape_ok(
            (#[trigger] cands.drop_first()[x]).0,
            i,
            j,
        ) by {
            assert(cands.drop_first()[x] == cands[x + 1]);
        }
        lemma_kept_traces_shape(cands.drop_first(), m, i, j);
        assert forall|x: int| 0 <= x < kept_traces(cands, m).len() implies trace_shape_ok(
            #[trigger] kept_traces(cands, m)[x],
            i,
            j,
        ) by {
            let head_len: int = if cands[0].1 == m {
                1
            } else {
                0
            };
            if x < head_len {
                assert(kept_traces(cands, m)[x] == cands[0].0);
            } else {
                assert(kept_traces(cands, m)[x] == kept_traces(cands.drop_first(), m)[x
                    - head_len]);
            }
        }
    }
}

/// Every decomposition candidate splits the interval at an inner point.
proof fn lemma_decomp_candidates_shape(s: Seq<char>, mll: nat, i: int, j: int, k: int)
    ensures
        forall|x: int|
            0 <= x < decomp_candidates(s, mll, i, j, k).len() ==> trace_shape_ok(
                (#[trigger] decomp_candidates(s, mll, i, j, k)[x]).0,
                i,
                j,
            ),
    decreases k - i,
{
    if 0 <= i && i + 2 <= k - 1 && k - 1 <= j - 2 && j <= s.len() {
        lemma_decomp_candidates_shape(s, mll, i, j, k - 1);
        let full = decomp_candidates(s, mll, i, j, k);
        let prefix = decomp_candidates(s, mll, i, j, k - 1);
        assert forall|x: int| 0 <= x < full.len() implies trace_shape_ok((#[trigger] full[x]).0, i, j) by {
            if x < prefix.len() {
                assert(full[x] == prefix[x]);
            } else {
                assert(full[x].0 == TraceType::Decomposition(mk_pos(i, k - 1), mk_pos(k - 1, j)));
                assert(i + 2 <= k - 1 <= j - 2 && mk_pos(i, k - 1) == mk_pos(i, k - 1) && mk_pos(
                    k - 1,
                    j,
                ) == mk_pos(k - 1, j));
            }
        }
    }
}

/// Every recorded trace of a non-diagonal cell has the prescribed shape,
/// so a traceback over it strictly shrinks the interval.
pub proof fn lemma_traces_shape(s: Seq<char>, mll: nat, i: int, j: int)
    requires
        0 <= i < j <= s.len(),
    ensures
        forall|x: int|
            0 <= x < traces_spec(s, mll, i, j).len() ==> trace_shape_ok(
                #[trigger] traces_spec(s, mll, i, j)[x],
                i,
                j,
            ),
{
    let cands = trace_candidates(s, mll, i, j);
    let dec = decomp_candidates(s, mll, i, j, j - 1);
    lemma_decomp_candidates_shape(s, mll, i, j, j - 1);
    assert forall|x: int| 0 <= x < cands.len() implies trace_shape_ok(
        (#[trigger] cands[x]).0,
        i,
        j,
    ) by {
        let compl_len: int = if pair_allowed(s, mll, i, j) {
            1
        } else {
            0
        };
        if x < compl_len {
            assert(cands[x].0 == TraceType::Complementary(mk_pos(i + 1, j - 1)));
            if i + 1 > j - 1 {
                assert(j - 1 == i);
                assert(!complementary(s[j - 1], s[i]));
            }
        } else if x < compl_len + 2 {
            assert(cands[x].0 == TraceType::Unpaired(mk_pos(i, j - 1)) || cands[x].0
                == TraceType::Unpaired(mk_pos(i + 1, j)));
        } else {
            assert(cands[x] == dec[x - compl_len - 2]);
            assert(trace_shape_ok(dec[x - compl_len - 2].0, i, j));
        }
    }
    lemma_kept_traces_shape(cands, dp(s, mll, i, j), i, j);
}



/// Walks a square matrix by anti-diagonals: every position of gap 1, then
/// every position of gap 2, and so on; within one gap by increasing row.
pub struct DiagonalMatrixIterator {
    columns: usize,
    rows: usize,
    position: usize,
    gap: usize,
}

impl DiagonalMatrixIterator {
    /// The number of columns the walk covers.
    pub closed spec fn spec_columns(self) -> int {
        self.columns as int
    }

    /// The number of rows the walk covers.
    pub closed spec fn spec_rows(self) -> int {
        self.rows as int
    }

    /// The row of the next position to hand out.
    pub closed spec fn spec_position(self) -> int {
        self.position as int
    }

    /// The gap of the next position to hand out.
    pub closed spec fn spec_gap(self) -> int {
        self.gap as int
    }

    /// The cursor stays inside the current diagonal.
    pub open spec fn wf(self) -> bool {
        &&& 1 <= self.spec_gap()
        &&& self.spec_columns() == 0 ==> self.spec_position() == 0 && self.spec_gap() == 1
        &&& self.spec_columns() >= 1 ==> self.spec_position() + self.spec_gap()
            <= self.spec_columns()
    }

    /// Starts the walk at the first position of gap 1.
    pub fn new(rows: usize, columns: usize) -> (it: DiagonalMatrixIterator)
        ensures
            it.wf(),
            it.spec_columns() == columns,
            it.spec_rows() == rows,
            it.spec_position() == 0,
            it.spec_gap() == 1,
    {
        DiagonalMatrixIterator { columns, rows, position: 0, gap: 1 }
    }

    /// Hands out the next position of the walk, or `None` once every
    /// diagonal is exhausted; moving past a diagonal's last position rolls
    /// over to the next gap.
    pub fn next(&mut self) -> (r: Option<Position>)
        requires
            old(self).wf(),
        ensures
            final(self).wf(),
            final(self).spec_columns() == old(self).spec_columns(),
            final(self).spec_rows() == old(self).spec_rows(),
            ({
                let cols = old(self).spec_columns();
                let rows = old(self).spec_rows();
                let rolled = old(self).spec_position() + old(self).spec_gap() >= cols;
                let p1 = if rolled {
                    0int
                } else {
                    old(self).spec_position()
                };
                let g1 = if rolled {
                    old(self).spec_gap() + 1
                } else {
                    old(self).spec_gap()
                };
                if old(self).spec_gap() >= cols {
                    r is None && *final(self) == *old(self)
                } else if g1 >= cols {
                    r is None && final(self).spec_position() == p1 && final(self).spec_gap() == g1
                } else if p1 + g1 >= rows {
                    r is None && final(self).spec_position() == p1 && final(self).spec_gap() == g1
                } else {
                    r == Some(mk_pos(p1, p1 + g1)) && final(self).spec_position() == p1 + 1
                        && final(self).spec_gap() == g1
                }
            }),
    {
        if self.gap >= self.columns {
            return None;
        }
        if self.position + self.gap >= self.columns {
            self.position = 0;
            self.gap = self.gap + 1;
            if self.gap >= self.columns {
                return None;
            }
        }
        let i = self.position;
        let j = i + self.gap;
        if j >= self.rows {
            return None;
        }
        self.position = self.position + 1;
        Some(Position::from(i, j))
    }
}

/// An interval of width one scores zero: its endpoints cannot pair and it
/// has no split point.
pub proof fn lemma_dp_width_one(s: Seq<char>, mll: nat, i: int)
    requires
        0 <= i,
        i + 1 <= s.len(),
    ensures
        dp(s, mll, i, i + 1) == 0,
{
    reveal_with_fuel(dp, 2);
    assert(!complementary(s[i], s[i]));
    assert(best_split(s, mll, i, i + 1, i) == 0);
}

/// The optimum never drops when an interval grows: dropping either
/// endpoint is always one of the cell's alternatives.
pub proof fn lemma_dp_monotonic(s: Seq<char>, mll: nat, i: int, j: int)
    requires
        0 <= i < j <= s.len(),
    ensures
        dp(s, mll, i, j) >= dp(s, mll, i, j - 1),
        dp(s, mll, i, j) >= dp(s, mll, i + 1, j),
{
}

/// Every split point already considered is covered by the running best
/// decomposition value.
proof fn lemma_best_split_covers(s: Seq<char>, mll: nat, i: int, j: int, k: int, t: int)
    requires
        0 <= i,
        j <= s.len(),
        i + 2 <= t <= j - 2,
        t < k <= j - 1,
    ensures
        best_split(s, mll, i, j, k) >= dp(s, mll, i, t) + dp(s, mll, t, j),
    decreases k - i,
{
    if t == k - 1 {
    } else {
        lemma_best_split_covers(s, mll, i, j, k - 1, t);
    }
}

/// The optimum of an interval is at least the sum of the optima of the two
/// halves of any split: decomposing never wins over the recorded value.
pub proof fn lemma_dp_superadditive(s: Seq<char>, mll: nat, i: int, k: int, j: int)
    requires
        0 <= i < k < j <= s.len(),
    ensures
        dp(s, mll, i, j) >= dp(s, mll, i, k) + dp(s, mll, k, j),
{
    if k == i + 1 {
        lemma_dp_width_one(s, mll, i);
        lemma_dp_monotonic(s, mll, i, j);
    } else if k == j - 1 {
        lemma_dp_width_one(s, mll, k);
        lemma_dp_monotonic(s, mll, i, j);
    } else {
        lemma_best_split_covers(s, mll, i, j, j - 1, k);
    }
}

/// An interval no wider than the minimal loop length admits no pair at
/// all: its optimum is zero.
pub proof fn lemma_dp_short_interval(s: Seq<char>, mll: nat, i: int, j: int)
    requires
        0 <= i <= j <= s.len(),
        j - i <= mll,
    ensures
        dp(s, mll, i, j) == 0,
    decreases j - i, j - i + 1,
{
    if i < j {
        lemma_dp_short_interval(s, mll, i, j - 1);
        lemma_dp_short_interval(s, mll, i + 1, j);
        lemma_best_split_zero_short(s, mll, i, j, j - 1);
    }
}

/// No decomposition of an interval no wider than the minimal loop length
/// scores anything.
proof fn lemma_best_split_zero_short(s: Seq<char>, mll: nat, i: int, j: int, k: int)
    requires
        0 <= i <= j <= s.len(),
        j - i <= mll,
    ensures
        best_split(s, mll, i, j, k) == 0,
    decreases j - i, k - i,
{
    if 0 <= i && i + 2 <= k - 1 && k - 1 <= j - 2 && j <= s.len() {
        lemma_dp_short_interval(s, mll, i, k - 1);
        lemma_dp_short_interval(s, mll, k - 1, j);
        lemma_best_split_zero_short(s, mll, i, j, k - 1);
    }
}

/// Filtering keeps no complementary alternative when none is listed.
proof fn lemma_kept_traces_not_compl(cands: Seq<(TraceType, nat)>, m: nat)
    requires
        forall|x: int| 0 <= x < cands.len() ==> !((#[trigger] cands[x]).0 is Complementary),
    ensures
        forall|x: int|
            0 <= x < kept_traces(cands, m).len() ==> !((#[trigger] kept_traces(cands, m)[x])
                is Complementary),
    decreases cands.len(),
{
    if cands.len() > 0 {
        assert forall|x: int| 0 <= x < cands.drop_first().len() implies !((#[trigger] cands.drop_first()[x]).0
            is Complementary) by {
            assert(cands.drop_first()[x] == cands[x + 1]);
        }
        lemma_kept_traces_not_compl(cands.drop_first(), m);
        assert forall|x: int| 0 <= x < kept_traces(cands, m).len() implies !((#[trigger] kept_traces(
            cands,
            m,
        )[x]) is Complementary) by {
            let head_len: int = if cands[0].1 == m {
                1
            } else {
                0
            };
            if x < head_len {
                assert(kept_traces(cands, m)[x] == cands[0].0);
            } else {
                assert(kept_traces(cands, m)[x] == kept_traces(cands.drop_first(), m)[x
                    - head_len]);
            }
        }
    }
}

/// Every decomposition alternative carries the decomposition variant.
proof fn lemma_decomp_candidates_variant(s: Seq<char>, mll: nat, i: int, j: int, k: int)
    ensures
        forall|x: int|
            0 <= x < decomp_candidates(s, mll, i, j, k).len() ==> (#[trigger] decomp_candidates(
                s,
                mll,
                i,
                j,
                k,
            )[x]).0 is Decomposition,
    decreases k - i,
{
    if 0 <= i && i + 2 <= k - 1 && k - 1 <= j - 2 && j <= s.len() {
        lemma_decomp_candidates_variant(s, mll, i, j, k - 1);
    }
}

/// Where the endpoints of the interval may not pair, no recorded trace is
/// a complementary step.
pub proof fn lemma_no_pair_no_compl(s: Seq<char>, mll: nat, i: int, j: int)
    requires
        0 <= i < j <= s.len(),
        !pair_allowed(s, mll, i, j),
    ensures
        forall|x: int|
            0 <= x < traces_spec(s, mll, i, j).len() ==> !((#[trigger] traces_spec(
                s,
                mll,
                i,
                j,
            )[x]) is Complementary),
{
    let cands = trace_candidates(s, mll, i, j);
    let dec = decomp_candidates(s, mll, i, j, j - 1);
    let unp = seq![
        (TraceType::Unpaired(mk_pos(i, j - 1)), dp(s, mll, i, j - 1)),
        (TraceType::Unpaired(mk_pos(i + 1, j)), dp(s, mll, i + 1, j)),
    ];
    lemma_decomp_candidates_variant(s, mll, i, j, j - 1);
    assert(cands =~= unp + dec);
    assert forall|x: int| 0 <= x < cands.len() implies !((#[trigger] cands[x]).0
        is Complementary) by {
        if x < 2 {
            assert(cands[x] == unp[x]);
            assert(cands[x].0 == TraceType::Unpaired(mk_pos(i, j - 1)) || cands[x].0
                == TraceType::Unpaired(mk_pos(i + 1, j)));
        } else {
            assert(cands[x] == dec[x - 2]);
            assert(dec[x - 2].0 is Decomposition);
        }
    }
    lemma_kept_traces_not_compl(cands, dp(s, mll, i, j));
}

/// What a kept alternative's presence says of the optimum: the optimum
/// equals that alternative's value.
pub open spec fn trace_value_ok(s: Seq<char>, mll: nat, i: int, j: int, t: TraceType) -> bool {
    match t {
        TraceType::Complementary(q) => dp(s, mll, i, j) == dp(s, mll, i + 1, j - 1) + 1,
        TraceType::Unpaired(q) => {
            &&& (q == mk_pos(i, j - 1) ==> dp(s, mll, i, j) == dp(s, mll, i, j - 1))
            &&& (q == mk_pos(i + 1, j) ==> dp(s, mll, i, j) == dp(s, mll, i + 1, j))
        },
        TraceType::Decomposition(q1, q2) => forall|k: int|
            i + 2 <= k <= j - 2 && q1 == #[trigger] mk_pos(i, k) && q2 == mk_pos(k, j) ==> dp(
                s,
                mll,
                i,
                j,
            ) == dp(s, mll, i, k) + dp(s, mll, k, j),
    }
}

/// A candidate's value is the one its shape prescribes, measured against a
/// target `m`.
pub open spec fn candidate_value_ok(
    s: Seq<char>,
    mll: nat,
    i: int,
    j: int,
    c: (TraceType, nat),
    m: nat,
) -> bool {
    c.1 == m ==> trace_value_ok(s, mll, i, j, c.0)
}

/// Filtering keeps the value bookkeeping of every candidate.
proof fn lemma_kept_traces_values(
    cands: Seq<(TraceType, nat)>,
    m: nat,
    s: Seq<char>,
    mll: nat,
    i: int,
    j: int,
)
    requires
        forall|x: int| 0 <= x < cands.len() ==> candidate_value_ok(s, mll, i, j, #[trigger] cands[x], m),
    ensures
        forall|x: int|
            0 <= x < kept_traces(cands, m).len() ==> trace_value_ok(
                s,
                mll,
                i,
                j,
                #[trigger] kept_traces(cands, m)[x],
            ),
    decreases cands.len(),
{
    if cands.len() > 0 {
        assert forall|x: int| 0 <= x < cands.drop_first().len() implies candidate_value_ok(
            s,
            mll,
            i,
            j,
            #[trigger] cands.drop_first()[x],
            m,
        ) by {
            assert(cands.drop_first()[x] == cands[x + 1]);
        }
        lemma_kept_traces_values(cands.drop_first(), m, s, mll, i, j);
        assert forall|x: int| 0 <= x < kept_traces(cands, m).len() implies trace_value_ok(
            s,
            mll,
            i,
            j,
            #[trigger] kept_traces(cands, m)[x],
        ) by {
            let head_len: int = if cands[0].1 == m {
                1
            } else {
                0
            };
            if x < head_len {
                assert(kept_traces(cands, m)[x] == cands[0].0);
                assert(candidate_value_ok(s, mll, i, j, cands[0], m));
            } else {
                assert(kept_traces(cands, m)[x] == kept_traces(cands.drop_first(), m)[x
                    - head_len]);
            }
        }
    }
}

/// Every decomposition alternative carries the value of its own split.
proof fn lemma_decomp_candidates_values(s: Seq<char>, mll: nat, i: int, j: int, k: int)
    requires
        j <= usize::MAX,
    ensures
        forall|x: int|
            0 <= x < decomp_candidates(s, mll, i, j, k).len() ==> trace_value_ok(
                s,
                mll,
                i,
                j,
                (#[trigger] decomp_candidates(s, mll, i, j, k)[x]).0,
            ) || (decomp_candidates(s, mll, i, j, k)[x]).1 != dp(s, mll, i, j),
    decreases k - i,
{
    if 0 <= i && i + 2 <= k - 1 && k - 1 <= j - 2 && j <= s.len() {
        lemma_decomp_candidates_values(s, mll, i, j, k - 1);
        let full = decomp_candidates(s, mll, i, j, k);
        let prefix = decomp_candidates(s, mll, i, j, k - 1);
        assert forall|x: int| 0 <= x < full.len() implies trace_value_ok(
            s,
            mll,
            i,
            j,
            (#[trigger] full[x]).0,
        ) || full[x].1 != dp(s, mll, i, j) by {
            if x < prefix.len() {
                assert(full[x] == prefix[x]);
            } else {
                let last = full[x];
                assert(last.0 == TraceType::Decomposition(mk_pos(i, k - 1), mk_pos(k - 1, j)));
                assert(last.1 == dp(s, mll, i, k - 1) + dp(s, mll, k - 1, j));
                if last.1 == dp(s, mll, i, j) {
                    assert forall|t: int|
                        i + 2 <= t <= j - 2 && mk_pos(i, k - 1) == #[trigger] mk_pos(i, t)
                            && mk_pos(k - 1, j) == mk_pos(t, j) implies dp(s, mll, i, j) == dp(
                        s,
                        mll,
                        i,
                        t,
                    ) + dp(s, mll, t, j) by {
                        assert(t == k - 1);
                    }
                }
            }
        }
    }
}

/// Every recorded trace of a cell attains the cell's optimum: the optimum
/// equals the value of the alternative the trace stands for.
pub proof fn lemma_traces_values(s: Seq<char>, mll: nat, i: int, j: int)
    requires
        0 <= i < j <= s.len(),
        j <= usize::MAX,
    ensures
        forall|x: int|
            0 <= x < traces_spec(s, mll, i, j).len() ==> trace_value_ok(
                s,
                mll,
                i,
                j,
                #[trigger] traces_spec(s, mll, i, j)[x],
            ),
{
    let cands = trace_candidates(s, mll, i, j);
    let dec = decomp_candidates(s, mll, i, j, j - 1);
    let m = dp(s, mll, i, j);
    let compl = if pair_allowed(s, mll, i, j) {
        seq![
            (TraceType::Complementary(mk_pos(i + 1, j - 1)), (dp(s, mll, i + 1, j - 1) + 1) as nat),
        ]
    } else {
        Seq::<(TraceType, nat)>::empty()
    };
    let unp = seq![
        (TraceType::Unpaired(mk_pos(i, j - 1)), dp(s, mll, i, j - 1)),
        (TraceType::Unpaired(mk_pos(i + 1, j)), dp(s, mll, i + 1, j)),
    ];
    lemma_decomp_candidates_values(s, mll, i, j, j - 1);
    assert(cands =~= compl + unp + dec);
    let compl_len = compl.len() as int;
    assert forall|x: int| 0 <= x < cands.len() implies candidate_value_ok(
        s,
        mll,
        i,
        j,
        #[trigger] cands[x],
        m,
    ) by {
        if x < compl_len {
            assert(cands[x] == compl[0]);
        } else if x < compl_len + 2 {
            assert(cands[x] == unp[x - compl_len]);
            assert(mk_pos(i, j - 1) != mk_pos(i + 1, j));
        } else {
            assert(cands[x] == dec[x - compl_len - 2]);
        }
    }
    lemma_kept_traces_values(cands, m, s, mll, i, j);
}
} // verus!
