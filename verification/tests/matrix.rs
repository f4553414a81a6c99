use nussinov::matrix::Matrix;
use nussinov::matrix::Position;
use nussinov::matrix::TraceType;
use nussinov::matrix_builder::DiagonalMatrixIterator;
use nussinov::matrix_builder::NussinovMatrixBuilder;
use nussinov::matrix_builder::UnpairedType;
use nussinov::nussinov::RNASequence;

#[test]
fn position_helpers() {
    let p = Position::from(1, 4);
    assert_eq!(p.i, 1);
    assert_eq!(p.j, 4);
    assert!(!p.is_diagonal());
    assert!(Position::from(3, 3).is_diagonal());
    assert!(p.is_diagonal_relation(&Position::from(2, 3)));
    assert!(!p.is_diagonal_relation(&Position::from(2, 4)));
    assert!(!p.is_diagonal_relation(&Position::from(1, 3)));
}

#[test]
fn position_children() {
    let p = Position::from(1, 4);
    assert_eq!(p.get_unpaired(UnpairedType::Left), Position::from(1, 3));
    assert_eq!(p.get_unpaired(UnpairedType::Bottom), Position::from(2, 4));
    assert_eq!(p.get_complementary(), Position::from(2, 3));
    let (a, b) = p.get_decomposition(3);
    assert_eq!(a, Position::from(1, 3));
    assert_eq!(b, Position::from(3, 4));
}

#[test]
fn fresh_matrix_shape() {
    let m = Matrix::new(4);
    assert_eq!(m.columns(), 5);
    assert_eq!(m.rows(), 5);
    assert_eq!(m.cell_count(), 25);
    assert_eq!(m.root().value, 0);
    assert_eq!(m.root().position, Position::from(0, 4));
    assert!(m.root().trace.is_empty());
}

#[test]
fn fill_records_optimum_and_ties() {
    let seq = RNASequence::new("GCGC").unwrap();
    let mut m = Matrix::new(seq.len());
    let b = NussinovMatrixBuilder::new(&seq, 1);
    m.fill(&b);
    assert_eq!(m.root().value, 2);
    // Two tied alternatives: the outer pair, and the split into two stems.
    assert_eq!(
        m.root().trace,
        vec![
            TraceType::Complementary(Position::from(1, 3)),
            TraceType::Decomposition(Position::from(0, 2), Position::from(2, 4)),
        ]
    );
    // One inner cell: a single complementary trace.
    assert_eq!(m.node(Position::from(1, 3)).value, 1);
    assert_eq!(
        m.node(Position::from(1, 3)).trace,
        vec![TraceType::Complementary(Position::from(2, 2))]
    );
    // Diagonal cells stay untouched.
    assert_eq!(m.node(Position::from(2, 2)).value, 0);
    assert!(m.node(Position::from(2, 2)).trace.is_empty());
}

#[test]
fn fill_on_sequence_without_pairs() {
    let seq = RNASequence::new("AAAA").unwrap();
    let mut m = Matrix::new(seq.len());
    let b = NussinovMatrixBuilder::new(&seq, 1);
    m.fill(&b);
    assert_eq!(m.root().value, 0);
    // Every alternative scores zero, so all of them are recorded.
    assert_eq!(
        m.root().trace,
        vec![
            TraceType::Unpaired(Position::from(0, 3)),
            TraceType::Unpaired(Position::from(1, 4)),
            TraceType::Decomposition(Position::from(0, 2), Position::from(2, 4)),
        ]
    );
}

#[test]
fn diagonal_iterator_walks_gaps_in_order() {
    let mut it = DiagonalMatrixIterator::new(5, 5);
    let expected = [
        (0, 1),
        (1, 2),
        (2, 3),
        (3, 4),
        (0, 2),
        (1, 3),
        (2, 4),
        (0, 3),
        (1, 4),
        (0, 4),
    ];
    for (i, j) in expected {
        assert_eq!(it.next(), Some(Position::from(i, j)));
    }
    assert_eq!(it.next(), None);
    assert_eq!(it.next(), None);
}

#[test]
fn diagonal_iterator_on_empty_matrix() {
    let mut it = DiagonalMatrixIterator::new(1, 1);
    assert_eq!(it.next(), None);
}
