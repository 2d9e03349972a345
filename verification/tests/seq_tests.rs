use seq_tag_finder::seq::Sequence;
use seq_tag_finder::seq::SequenceLookup;
use seq_tag_finder::seq::SequenceTable;
use seq_tag_finder::seq::WhitelistError;

#[test]
fn test_add_seq() {
    let mut seq_table = SequenceTable::default();
    let seq1 = Sequence::new("ACGT".to_string()).unwrap();
    seq_table.add_seq(&seq1, "target1");
    // Input sequence is of length 4. Each base can be replaced with 4 other
    // bases (other than itself), so 4*4 = 16 neighbors + the sequence itself.
    assert_eq!(seq_table.all_whitelist_combinations.len(), 17);
}

#[test]
fn test_lookup() {
    let mut seq_table = SequenceTable::default();
    let seq1 = Sequence::new("ACGT".to_string()).unwrap();
    seq_table.add_seq(&seq1, "target1");
    assert_eq!(seq_table.lookup(b"ACGT"), SequenceLookup::Exact("target1".to_string()));
    assert_eq!(seq_table.lookup(b"ACGA"), SequenceLookup::ErrorOf("target1".to_string()));
    assert_eq!(seq_table.lookup(b"ACGTN"), SequenceLookup::NoMatch);
    assert_eq!(seq_table.lookup(b"AAAA"), SequenceLookup::NoMatch);
}

#[test]
fn add_seq_with_longer_marker_stores_one_plus_four_l_entries() {
    let mut seq_table = SequenceTable::default();
    let seq1 = Sequence::new("ACGTN".to_string()).unwrap();
    seq_table.add_seq(&seq1, "target1");
    assert_eq!(seq_table.all_whitelist_combinations.len(), 1 + 5 * 4);
}

#[test]
fn sequence_new_uppercases_lowercase_input() {
    let s = Sequence::new("acgtn".to_string()).unwrap();
    assert_eq!(s.seq, b"ACGTN".to_vec());
    assert_eq!(s.len(), 5);
}

#[test]
fn sequence_new_rejects_unknown_base() {
    assert_eq!(Sequence::new("AXGT".to_string()), Err(WhitelistError::InvalidSequence));
}

#[test]
fn sequence_new_rejects_non_ascii() {
    assert_eq!(Sequence::new("ACG\u{e9}".to_string()), Err(WhitelistError::InvalidSequence));
}

#[test]
fn two_markers_make_shared_neighbors_ambiguous() {
    // AAAA and AAAT are one substitution apart, so each marker's own key is
    // exact while a window like AAAG, a neighbor of both, becomes ambiguous.
    let mut seq_table = SequenceTable::default();
    seq_table.add_seq(&Sequence::new("AAAA".to_string()).unwrap(), "t1");
    seq_table.add_seq(&Sequence::new("AAAT".to_string()).unwrap(), "t2");
    assert_eq!(seq_table.lookup(b"AAAA"), SequenceLookup::Exact("t1".to_string()));
    assert_eq!(seq_table.lookup(b"AAAT"), SequenceLookup::Exact("t2".to_string()));
    assert_eq!(seq_table.lookup(b"AAAG"), SequenceLookup::Ambiguous);
}
