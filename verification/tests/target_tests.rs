use seq_tag_finder::seq::Sequence;
use seq_tag_finder::seq::SequenceLookup;
use seq_tag_finder::seq::SequenceTable;
use seq_tag_finder::seq::WhitelistError;
use seq_tag_finder::target::split_whitespace_tokens;
use seq_tag_finder::target::TargetProcessor;

#[test]
fn test_trim_seqs_by_len_in_target_map() {
    let mut target_map = SequenceTable::default();
    target_map.add_seq(&Sequence::new("ACGT".to_string()).unwrap(), "target1");
    target_map.add_seq(&Sequence::new("AAGTG".to_string()).unwrap(), "target2");
    target_map.add_seq(&Sequence::new("ACG".to_string()).unwrap(), "target3");

    let trimmed_processor = TargetProcessor::trim_seqs_by_len_in_target_map(target_map).unwrap();
    assert_eq!(trimmed_processor.target_map.min_length, 3);
    assert!(trimmed_processor
        .target_map
        .contains_key(&Sequence::new("AAG".to_string()).unwrap()));
}

#[test]
fn trim_of_empty_table_is_an_error() {
    let target_map = SequenceTable::default();
    assert!(matches!(
        TargetProcessor::trim_seqs_by_len_in_target_map(target_map),
        Err(WhitelistError::EmptyTable)
    ));
}

#[test]
fn split_whitespace_tokens_splits_like_words() {
    let toks = split_whitespace_tokens("  label\tACGT  TTTT \r");
    assert_eq!(toks, vec!["label".to_string(), "ACGT".to_string(), "TTTT".to_string()]);
    assert_eq!(split_whitespace_tokens(""), Vec::<String>::new());
    assert_eq!(split_whitespace_tokens("   \t "), Vec::<String>::new());
}

#[test]
fn process_truncates_markers_to_the_shortest() {
    // Markers of lengths 3, 4 and 5: every key of the table has length 3.
    let lines = vec![
        "target1 ACGT".to_string(),
        "target2 AAGTG ACG".to_string(),
    ];
    let tp = TargetProcessor::process(&lines).unwrap();
    assert_eq!(tp.target_map.min_length, 3);
    for (key, _) in &tp.target_map.all_whitelist_combinations {
        assert_eq!(key.seq.len(), 3);
    }
    // ACGT and ACG both truncate to ACG; the later marker wins the key.
    assert_eq!(tp.target_map.lookup(b"ACG"), SequenceLookup::Exact("target2".to_string()));
    assert_eq!(tp.target_map.lookup(b"AAG"), SequenceLookup::Exact("target2".to_string()));
}

#[test]
fn process_ignores_blank_and_single_token_lines() {
    let lines = vec![
        "".to_string(),
        "justalabel".to_string(),
        "target1 ACGT".to_string(),
        "   ".to_string(),
    ];
    let tp = TargetProcessor::process(&lines).unwrap();
    assert_eq!(tp.target_map.min_length, 4);
    assert_eq!(tp.target_map.lookup(b"ACGT"), SequenceLookup::Exact("target1".to_string()));
}

#[test]
fn process_rejects_invalid_marker() {
    let lines = vec!["target1 ACXT".to_string()];
    assert!(matches!(
        TargetProcessor::process(&lines),
        Err(WhitelistError::InvalidSequence)
    ));
}

#[test]
fn process_of_empty_whitelist_is_an_error() {
    let lines = vec!["".to_string(), "lonely".to_string()];
    assert!(matches!(TargetProcessor::process(&lines), Err(WhitelistError::EmptyTable)));
}
