use seq_tag_finder::metrics::Metrics;
use seq_tag_finder::pipeline::Batcher;
use seq_tag_finder::pipeline::FrequencyScanner;
use seq_tag_finder::pipeline::RecordData;
use seq_tag_finder::pipeline::Tagger;
use seq_tag_finder::seq::Sequence;
use seq_tag_finder::seq::SequenceTable;
use seq_tag_finder::util::get_most_frequently_occuring_key;
use seq_tag_finder::util::Histogram;

fn single_marker_table(marker: &str, label: &str) -> SequenceTable {
    let mut seq_table = SequenceTable::default();
    let seq = Sequence::new(marker.to_string()).unwrap();
    seq_table.add_seq(&seq, label);
    seq_table.min_length = seq.len();
    seq_table
}

fn record(read: &str) -> RecordData {
    RecordData { seq: read.as_bytes().to_vec(), tag: None }
}

#[test]
fn test_construct_target_start_pos_to_frequency_hashmap() {
    let seq_table = single_marker_table("ACGT", "target1");
    let batches = vec![vec![record("ACGTACGT")], vec![record("ACGTGCGT")]];
    let scanner = FrequencyScanner::new(seq_table, 2);
    let frequency_map = scanner.construct_target_start_pos_to_frequency_hashmap(&batches);
    // Two exact matches at offset 0, each scoring 3, give a frequency of 6.
    assert_eq!(frequency_map.get(0), Some(6));
}

#[test]
fn scanner_gives_marker_offset_the_top_score() {
    // The marker sits at offset 2 of both reads.
    let seq_table = single_marker_table("ACGT", "target1");
    let batches = vec![vec![record("TTACGTTT"), record("GGACGTGG")]];
    let scanner = FrequencyScanner::new(seq_table, 100);
    let h = scanner.construct_target_start_pos_to_frequency_hashmap(&batches);
    assert_eq!(h.get(2), Some(6));
    assert_eq!(get_most_frequently_occuring_key(&h), Some(2));
}

#[test]
fn scanner_stops_at_the_record_cap() {
    let seq_table = single_marker_table("ACGT", "target1");
    let batches = vec![vec![record("ACGTACGT")], vec![record("ACGTGCGT")]];
    let scanner = FrequencyScanner::new(seq_table, 1);
    let h = scanner.construct_target_start_pos_to_frequency_hashmap(&batches);
    // Only the first read is scanned before the cap.
    assert_eq!(h.get(0), Some(3));
}

#[test]
fn scanner_skips_reads_shorter_than_the_window() {
    let seq_table = single_marker_table("ACGT", "target1");
    let batches = vec![vec![record("AC")]];
    let scanner = FrequencyScanner::new(seq_table, 10);
    let h = scanner.construct_target_start_pos_to_frequency_hashmap(&batches);
    assert_eq!(get_most_frequently_occuring_key(&h), None);
}

#[test]
fn unmatched_whitelist_selects_no_offset() {
    // No window of any read is within one substitution of CCCCC.
    let seq_table = single_marker_table("CCCCC", "target1");
    let batches = vec![vec![record("AAAAAAAAAA"), record("TTTTTGGGGG")]];
    let scanner = FrequencyScanner::new(seq_table, 100);
    let h = scanner.construct_target_start_pos_to_frequency_hashmap(&batches);
    assert_eq!(get_most_frequently_occuring_key(&h), None);
}

#[test]
fn tagger_attaches_labels_and_counts_matches() {
    let tagger = Tagger { target_map: single_marker_table("ACGT", "target1") };
    let mut batch = vec![record("ACGTACGT"), record("AGGTACGT"), record("TTTTTTTT"), record("AC")];
    let mut metrics = Metrics::new(Histogram::new(), "sample.bam".to_string());
    tagger.tag_batch(&mut batch, 0, &mut metrics);
    assert_eq!(batch[0].tag, Some("target1".to_string()));
    assert_eq!(batch[1].tag, Some("target1".to_string()));
    assert_eq!(batch[2].tag, None);
    assert_eq!(batch[3].tag, None);
    assert_eq!(metrics.read_count, 4);
    assert_eq!(metrics.exact_count, 1);
    assert_eq!(metrics.mismatch_count, 1);
    // The read bytes themselves are never altered.
    assert_eq!(batch[0].seq, b"ACGTACGT".to_vec());
}

#[test]
fn tagging_twice_gives_identical_output() {
    let tagger = Tagger { target_map: single_marker_table("ACGT", "target1") };
    let make = || vec![record("ACGTACGT"), record("AGGTACGT"), record("TTTTTTTT")];
    let mut first = make();
    let mut second = make();
    let mut m1 = Metrics::new(Histogram::new(), "a.bam".to_string());
    let mut m2 = Metrics::new(Histogram::new(), "a.bam".to_string());
    tagger.tag_batch(&mut first, 0, &mut m1);
    tagger.tag_batch(&mut second, 0, &mut m2);
    assert_eq!(first.len(), second.len());
    for (a, b) in first.iter().zip(second.iter()) {
        assert_eq!(a.seq, b.seq);
        assert_eq!(a.tag, b.tag);
    }
    assert_eq!(m1.exact_count, m2.exact_count);
    assert_eq!(m1.mismatch_count, m2.mismatch_count);
}

#[test]
fn batching_preserves_every_record() {
    // 10 records into batches of 3: lengths 3, 3, 3, 1, summing to 10,
    // and concatenating the batches restores the input order.
    let mut batcher: Batcher<u32> = Batcher::new(3);
    let mut emitted: Vec<Vec<u32>> = Vec::new();
    for x in 0..10u32 {
        if let Some(b) = batcher.push(x) {
            emitted.push(b);
        }
    }
    if let Some(b) = batcher.flush() {
        emitted.push(b);
    }
    let lens: Vec<usize> = emitted.iter().map(|b| b.len()).collect();
    assert_eq!(lens, vec![3, 3, 3, 1]);
    let flat: Vec<u32> = emitted.into_iter().flatten().collect();
    assert_eq!(flat, (0..10u32).collect::<Vec<u32>>());
}

#[test]
fn metrics_start_at_zero() {
    let metrics = Metrics::new(Histogram::new(), "in.bam".to_string());
    assert_eq!(metrics.input_bam, "in.bam".to_string());
    assert_eq!(metrics.read_count, 0);
    assert_eq!(metrics.exact_count, 0);
    assert_eq!(metrics.mismatch_count, 0);
}
