//! The sequence model and the run orchestrator: validates the input symbols
//! and answers complementarity queries.

use crate::matrix::Matrix;
use crate::matrix::Position;
use crate::matrix_builder::NussinovMatrixBuilder;
use crate::path_converter::dedup_spec;
use crate::path_converter::render_spec;
use crate::path_converter::NussinovPathConverter;
use crate::path_converter::PathConverter;
use crate::path_converter::SymbolicPaths;
use crate::traceback_paths::cell_paths;
use crate::traceback_paths::NussinovTracebackPathsBuilder;
use vstd::prelude::*;

verus! {

/// The accepted nucleotide alphabet, after upper-casing.
pub open spec fn is_valid_symbol(c: char) -> bool {
    c == 'A' || c == 'U' || c == 'G' || c == 'C'
}

/// Upper-cases the four lower-case nucleotide letters; every other
/// character is left unchanged (and is then rejected by validation).
pub open spec fn upper_symbol(c: char) -> char {
    if c == 'a' {
        'A'
    } else if c == 'u' {
        'U'
    } else if c == 'g' {
        'G'
    } else if c == 'c' {
        'C'
    } else {
        c
    }
}

/// The upper-cased form of a raw input sequence.
pub open spec fn upper_seq(s: Seq<char>) -> Seq<char> {
    Seq::new(s.len(), |k: int| upper_symbol(s[k]))
}

/// A raw input is accepted when every upper-cased character is one of the
/// four nucleotide symbols.
pub open spec fn input_accepted(s: Seq<char>) -> bool {
    forall|k: int| 0 <= k < s.len() ==> is_valid_symbol(#[trigger] upper_seq(s)[k])
}

/// The three allowed unordered complementary pairs: `A`-`U`, `G`-`C` and
/// `G`-`U`. Equal symbols never pair.
pub open spec fn complementary(a: char, b: char) -> bool {
    ||| (a == 'A' && b == 'U')
    ||| (a == 'U' && b == 'A')
    ||| (a == 'G' && b == 'C')
    ||| (a == 'C' && b == 'G')
    ||| (a == 'G' && b == 'U')
    ||| (a == 'U' && b == 'G')
}

/// A validated nucleotide sequence: upper-case symbols of the 4-letter
/// alphabet, immutable after construction.
#[derive(Debug, Clone)]
pub struct RNASequence(Vec<char>);

impl View for RNASequence {
    type V = Seq<char>;

    closed spec fn view(&self) -> Seq<char> {
        self.0@
    }
}

impl RNASequence {
    /// Every stored symbol belongs to the alphabet.
    pub open spec fn wf(&self) -> bool {
        forall|k: int| 0 <= k < self@.len() ==> is_valid_symbol(#[trigger] self@[k])
    }

    /// Upper-cases the raw input and rejects it when any character falls
    /// outside the 4-symbol alphabet; no matrix work happens on a rejected
    /// input.
    pub fn new(rna_sequence: &str) -> (r: Result<RNASequence, ()>)
        ensures
            r is Ok <==> input_accepted(rna_sequence@),
            r is Ok ==> r->Ok_0@ == upper_seq(rna_sequence@) && r->Ok_0.wf(),
    {
        let n = rna_sequence.unicode_len();
        let mut symbols: Vec<char> = Vec::new();
        let mut idx: usize = 0;
        while idx < n
            invariant
                n == rna_sequence@.len(),
                idx <= n,
                symbols@ == upper_seq(rna_sequence@).take(idx as int),
                forall|k: int| 0 <= k < idx ==> is_valid_symbol(#[trigger] upper_seq(rna_sequence@)[k]),
            decreases n - idx,
        {
            let c = rna_sequence.get_char(idx);
            let up = match c {
                'a' | 'A' => 'A',
                'u' | 'U' => 'U',
                'g' | 'G' => 'G',
                'c' | 'C' => 'C',
                _ => {
                    proof {
                        let k = idx as int;
                        assert(upper_seq(rna_sequence@)[k] == upper_symbol(rna_sequence@[k]));
                        assert(!is_valid_symbol(upper_symbol(rna_sequence@[k])));
                    }
                    return Err(());
                },
            };
            assert(up == upper_symbol(rna_sequence@[idx as int]));
            symbols.push(up);
            assert(symbols@ =~= upper_seq(rna_sequence@).take(idx + 1));
            idx += 1;
        }
        assert(symbols@ =~= upper_seq(rna_sequence@));
        Ok(RNASequence(symbols))
    }

    /// The number of symbols.
    pub fn len(&self) -> (n: usize)
        ensures
            n == self@.len(),
    {
        self.0.len()
    }

    /// Whether the last and first symbols of the interval `[i, j)` form a
    /// complementary pair; indices outside the sequence fail.
    pub fn is_complement(&self, position: &Position) -> (r: Result<bool, ()>)
        ensures
            r is Ok <==> 1 <= position.j <= self@.len() && position.i < self@.len(),
            r is Ok ==> r->Ok_0 == complementary(self@[position.j - 1], self@[position.i as int]),
    {
        let size = self.0.len();
        if position.j < 1 || position.j - 1 >= size || position.i >= size {
            return Err(());
        }
        let first_nucleotid = self.0[position.j - 1];
        let second_nucleotid = self.0[position.i];
        let r = match (first_nucleotid, second_nucleotid) {
            ('A', 'U') | ('U', 'A') => true,
            ('G', 'C') | ('C', 'G') => true,
            ('G', 'U') | ('U', 'G') => true,
            _ => false,
        };
        Ok(r)
    }
}


/// The whole pipeline's output for a sequence and loop length: every
/// optimal derivation rendered as a dot-bracket string, first occurrences
/// kept in enumeration order.
pub open spec fn strings_spec(s: Seq<char>, mll: nat) -> Seq<Seq<char>> {
    dedup_spec(
        cell_paths(s, mll, 0, s.len() as int).map_values(
            |f: Seq<Position>| render_spec(s.len(), f),
        ),
    )
}

/// One prediction run: a validated sequence, the loop-length parameter and
/// the scoring matrix the run fills.
pub struct Nussinov {
    minimal_loop_length: usize,
    sequence: RNASequence,
    matrix: Matrix,
}

impl Nussinov {
    /// The validated symbols of the run.
    pub closed spec fn spec_seq(self) -> Seq<char> {
        self.sequence@
    }

    /// The loop-length parameter of the run.
    pub closed spec fn spec_mll(self) -> nat {
        self.minimal_loop_length as nat
    }

    /// The run's matrix fits its sequence and its base cases are in place.
    pub closed spec fn ready(self) -> bool {
        &&& self.matrix.wf()
        &&& self.matrix.diagonal_initial()
        &&& self.matrix.spec_size() == self.sequence@.len()
    }

    /// Validates the sequence and sets up the scoring matrix. Inputs with a
    /// symbol outside the alphabet are rejected before any matrix work.
    pub fn new(sequence: &str, minimal_loop_length: usize) -> (r: Nussinov)
        requires
            input_accepted(sequence@),
            (sequence@.len() + 1) * (sequence@.len() + 1) <= usize::MAX,
        ensures
            r.spec_seq() == upper_seq(sequence@),
            r.spec_mll() == minimal_loop_length,
            r.ready(),
    {
        let deserialized_sequence = RNASequence::new(sequence);
        match deserialized_sequence {
            Ok(s) => {
                let len = s.len();
                let m = Matrix::new(len);
                proof {
                    assert forall|ii: int| 0 <= ii <= m.spec_size() implies crate::matrix::is_initial_node(
                        #[trigger] m.node_at(ii, ii),
                        ii,
                        ii,
                    ) by {}
                }
                Nussinov { minimal_loop_length, matrix: m, sequence: s }
            },
            Err(_) => vstd::pervasive::unreached(),
        }
    }

    /// Fills the matrix, enumerates every optimal structure and renders
    /// each as a dot-bracket string, deduplicating identical strings.
    pub fn run(&mut self) -> (r: SymbolicPaths)
        requires
            old(self).ready(),
        ensures
            r@.map_values(|t: String| t@) == strings_spec(
                old(self).spec_seq(),
                old(self).spec_mll(),
            ),
            final(self).spec_seq() == old(self).spec_seq(),
            final(self).spec_mll() == old(self).spec_mll(),
            final(self).ready(),
    {
        let ghost s = self.sequence@;
        let ghost mll = self.minimal_loop_length as nat;
        let matrix_builder = NussinovMatrixBuilder::new(&self.sequence, self.minimal_loop_length);
        self.matrix.fill(&matrix_builder);
        proof {
            assert forall|ii: int| 0 <= ii <= self.matrix.spec_size() implies crate::matrix::is_initial_node(
                #[trigger] self.matrix.node_at(ii, ii),
                ii,
                ii,
            ) by {
                assert(crate::matrix_builder::cell_ok(s, mll, self.matrix.node_at(ii, ii), ii, ii));
            }
        }
        let traceback_builder = NussinovTracebackPathsBuilder::new();
        let paths = traceback_builder.build(&self.matrix);
        let path_converter = NussinovPathConverter::new(&self.sequence);
        let symbolic_paths = path_converter.convert(&paths);
        symbolic_paths
    }
}

/// Every enumerated structure decodes to a string of the same length as
/// the input sequence: each member of the pipeline's output has exactly
/// one character per sequence position.
pub proof fn lemma_output_lengths(s: Seq<char>, mll: nat, t: Seq<char>)
    requires
        strings_spec(s, mll).contains(t),
    ensures
        t.len() == s.len(),
{
    let rendered = cell_paths(s, mll, 0, s.len() as int).map_values(
        |f: Seq<Position>| render_spec(s.len(), f),
    );
    crate::path_converter::lemma_dedup_contains(rendered, t);
    let x = choose|x: int| 0 <= x < rendered.len() && rendered[x] == t;
    crate::path_converter::lemma_render_len(s.len(), cell_paths(s, mll, 0, s.len() as int)[x]);
}

/// Re-running fill, enumeration and rendering on the same sequence and
/// loop length produces the identical list of output strings: the whole
/// pipeline is a function of its two inputs.
pub proof fn lemma_run_deterministic(
    r1: Seq<Seq<char>>,
    r2: Seq<Seq<char>>,
    s: Seq<char>,
    mll: nat,
)
    requires
        r1 == strings_spec(s, mll),
        r2 == strings_spec(s, mll),
    ensures
        r1 == r2,
{
}
} // verus!
