use nussinov::matrix::Position;
use nussinov::nussinov::RNASequence;

#[test]
fn accepts_the_four_symbols() {
    let s = RNASequence::new("AUGC").unwrap();
    assert_eq!(s.len(), 4);
}

#[test]
fn upper_cases_lower_case_input() {
    let s = RNASequence::new("augc").unwrap();
    assert_eq!(s.len(), 4);
    // A-U at the outer ends of the whole interval: 'a' and 'c' upper-cased.
    let r = s.is_complement(&Position::from(0, 2)).unwrap();
    assert!(r);
}

#[test]
fn rejects_symbols_outside_the_alphabet() {
    assert!(RNASequence::new("AUXG").is_err());
    assert!(RNASequence::new("AUG C").is_err());
    assert!(RNASequence::new("T").is_err());
}

#[test]
fn accepts_the_empty_sequence() {
    let s = RNASequence::new("").unwrap();
    assert_eq!(s.len(), 0);
}

#[test]
fn complement_checks_last_and_first_of_interval() {
    let s = RNASequence::new("GCGC").unwrap();
    // Interval [0, 4): last symbol C, first symbol G.
    assert_eq!(s.is_complement(&Position::from(0, 4)), Ok(true));
    // Interval [0, 3): last symbol G, first symbol G.
    assert_eq!(s.is_complement(&Position::from(0, 3)), Ok(false));
}

#[test]
fn complement_allows_the_wobble_pair() {
    let s = RNASequence::new("GU").unwrap();
    assert_eq!(s.is_complement(&Position::from(0, 2)), Ok(true));
    let t = RNASequence::new("AG").unwrap();
    assert_eq!(t.is_complement(&Position::from(0, 2)), Ok(false));
}

#[test]
fn complement_rejects_out_of_range_indices() {
    let s = RNASequence::new("GC").unwrap();
    assert!(s.is_complement(&Position::from(0, 3)).is_err());
    assert!(s.is_complement(&Position::from(2, 2)).is_err());
    assert!(s.is_complement(&Position::from(0, 0)).is_err());
}
