use nussinov::matrix::Matrix;
use nussinov::matrix::Position;
use nussinov::matrix_builder::NussinovMatrixBuilder;
use nussinov::nussinov::Nussinov;
use nussinov::nussinov::RNASequence;
use nussinov::path_converter::NussinovPathConverter;
use nussinov::path_converter::PathConverter;
use nussinov::traceback_paths::NussinovTracebackPathsBuilder;
use nussinov::traceback_paths::TracebackPathElement;

/// Scans a dot-bracket string with a counter standing in for a stack:
/// balanced when the counter never underflows and ends at zero.
fn balanced(s: &str) -> bool {
    let mut depth: i64 = 0;
    for c in s.chars() {
        match c {
            '(' => depth += 1,
            ')' => {
                depth -= 1;
                if depth < 0 {
                    return false;
                }
            }
            '.' => {}
            _ => return false,
        }
    }
    depth == 0
}

#[test]
fn gcgc_scores_two_pairs() {
    let mut run = Nussinov::new("GCGC", 1);
    let out = run.run();
    let seq = RNASequence::new("GCGC").unwrap();
    let mut m = Matrix::new(seq.len());
    m.fill(&NussinovMatrixBuilder::new(&seq, 1));
    assert_eq!(m.root().value, 2);
    assert_eq!(out, vec!["(())".to_string(), "()()".to_string()]);
}

#[test]
fn aaaa_has_no_pair_and_a_single_structure() {
    let mut run = Nussinov::new("AAAA", 1);
    let out = run.run();
    let seq = RNASequence::new("AAAA").unwrap();
    let mut m = Matrix::new(seq.len());
    m.fill(&NussinovMatrixBuilder::new(&seq, 1));
    assert_eq!(m.root().value, 0);
    assert_eq!(out, vec!["....".to_string()]);
}

#[test]
fn ggggcccc_scores_four_pairs() {
    let seq = RNASequence::new("GGGGCCCC").unwrap();
    let mut m = Matrix::new(seq.len());
    m.fill(&NussinovMatrixBuilder::new(&seq, 1));
    assert_eq!(m.root().value, 4);
    let mut run = Nussinov::new("GGGGCCCC", 1);
    let out = run.run();
    assert_eq!(out, vec!["(((())))".to_string()]);
}

#[test]
fn every_output_realizes_the_optimal_pair_count() {
    for (seq, mll) in [("GCGC", 1), ("GGGGCCCC", 1), ("AUGCAU", 1), ("GUAUGC", 2), ("AAAA", 1)] {
        let validated = RNASequence::new(seq).unwrap();
        let mut m = Matrix::new(validated.len());
        m.fill(&NussinovMatrixBuilder::new(&validated, mll));
        let value = m.root().value;
        let mut run = Nussinov::new(seq, mll);
        for s in run.run() {
            assert_eq!(s.chars().filter(|c| *c == '(').count(), value);
            assert_eq!(s.chars().filter(|c| *c == ')').count(), value);
        }
    }
}

#[test]
fn ambiguous_sequence_yields_distinct_structures() {
    let mut run = Nussinov::new("GCGC", 1);
    let out = run.run();
    assert!(out.len() >= 2);
    for a in 0..out.len() {
        for b in (a + 1)..out.len() {
            assert_ne!(out[a], out[b]);
        }
    }
}

#[test]
fn every_output_has_the_input_length() {
    for (seq, mll) in [("GCGC", 1), ("GGGGCCCC", 1), ("AUGCAU", 1), ("GUAUGC", 2)] {
        let mut run = Nussinov::new(seq, mll);
        for s in run.run() {
            assert_eq!(s.len(), seq.len());
        }
    }
}

#[test]
fn every_output_is_balanced() {
    for (seq, mll) in [("GCGC", 1), ("GGGGCCCC", 1), ("AUGCAU", 1), ("GUAUGC", 0), ("AAAA", 1)] {
        let mut run = Nussinov::new(seq, mll);
        for s in run.run() {
            assert!(balanced(&s));
        }
    }
}

#[test]
fn rerunning_gives_identical_output() {
    let mut first = Nussinov::new("GCAUGC", 1);
    let mut second = Nussinov::new("GCAUGC", 1);
    assert_eq!(first.run(), second.run());
    // The same run object run again gives the same output too.
    assert_eq!(first.run(), second.run());
}

#[test]
fn loop_length_at_least_the_length_forbids_all_pairs() {
    let seq = RNASequence::new("GCG").unwrap();
    let mut m = Matrix::new(seq.len());
    m.fill(&NussinovMatrixBuilder::new(&seq, 3));
    assert_eq!(m.root().value, 0);
    let mut run = Nussinov::new("GCG", 3);
    assert_eq!(run.run(), vec!["...".to_string()]);
}

#[test]
fn empty_sequence_yields_one_empty_structure() {
    let mut run = Nussinov::new("", 1);
    assert_eq!(run.run(), vec![String::new()]);
}

#[test]
fn superadditivity_of_cell_values() {
    let seq = RNASequence::new("GCAUGCUA").unwrap();
    let n = seq.len();
    let mut m = Matrix::new(n);
    m.fill(&NussinovMatrixBuilder::new(&seq, 1));
    for i in 0..n {
        for j in (i + 1)..=n {
            for k in (i + 1)..j {
                let whole = m.node(Position::from(i, j)).value;
                let left = m.node(Position::from(i, k)).value;
                let right = m.node(Position::from(k, j)).value;
                assert!(whole >= left + right);
            }
            if j > i + 1 {
                assert!(m.node(Position::from(i, j)).value >= m.node(Position::from(i, j - 1)).value);
                assert!(m.node(Position::from(i, j)).value >= m.node(Position::from(i + 1, j)).value);
            }
        }
    }
}

#[test]
fn traceback_enumerates_both_derivations() {
    let seq = RNASequence::new("GCGC").unwrap();
    let mut m = Matrix::new(seq.len());
    m.fill(&NussinovMatrixBuilder::new(&seq, 1));
    let paths = NussinovTracebackPathsBuilder::new().build(&m);
    assert_eq!(paths.len(), 2);
}

#[test]
fn flatten_recovers_decomposition_order() {
    let path = vec![
        TracebackPathElement::Single(Position::from(0, 4)),
        TracebackPathElement::Decomposition(
            vec![TracebackPathElement::Single(Position::from(0, 2))],
            vec![TracebackPathElement::Single(Position::from(2, 4))],
        ),
    ];
    let flat = NussinovPathConverter::flatten_path(&path);
    assert_eq!(
        flat,
        vec![Position::from(0, 4), Position::from(0, 2), Position::from(2, 4)]
    );
}

#[test]
fn converter_deduplicates_rendered_strings() {
    let seq = RNASequence::new("AAA").unwrap();
    let converter = NussinovPathConverter::new(&seq);
    let paths = vec![
        vec![TracebackPathElement::Single(Position::from(0, 3))],
        vec![
            TracebackPathElement::Single(Position::from(0, 3)),
            TracebackPathElement::Single(Position::from(1, 3)),
        ],
    ];
    let out = converter.convert(&paths);
    assert_eq!(out, vec!["...".to_string()]);
}

#[test]
fn converter_marks_each_complementary_step() {
    let seq = RNASequence::new("GCGC").unwrap();
    let converter = NussinovPathConverter::new(&seq);
    let paths = vec![vec![
        TracebackPathElement::Single(Position::from(0, 4)),
        TracebackPathElement::Single(Position::from(1, 3)),
        TracebackPathElement::Single(Position::from(2, 2)),
    ]];
    let out = converter.convert(&paths);
    assert_eq!(out, vec!["(())".to_string()]);
}
