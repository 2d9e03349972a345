use seq_tag_finder::util::get_most_frequently_occuring_key;
use seq_tag_finder::util::increment_frequency_of_target_start_pos;
use seq_tag_finder::util::Histogram;

#[test]
fn test_get_most_frequently_occuring_key() {
    let mut map = Histogram::new();
    increment_frequency_of_target_start_pos(&mut map, 1, 2);
    increment_frequency_of_target_start_pos(&mut map, 2, 3);
    increment_frequency_of_target_start_pos(&mut map, 3, 1);
    assert_eq!(get_most_frequently_occuring_key(&map), Some(2));
}

#[test]
fn test_increment_frequency_of_target_start_pos() {
    let mut map = Histogram::new();
    increment_frequency_of_target_start_pos(&mut map, 1, 5);
    assert_eq!(map.get(1), Some(5));
    increment_frequency_of_target_start_pos(&mut map, 1, 3);
    assert_eq!(map.get(1), Some(8));
}

#[test]
fn selector_of_empty_histogram_is_none() {
    let map = Histogram::new();
    assert_eq!(get_most_frequently_occuring_key(&map), None);
}

#[test]
fn selector_breaks_ties_by_lowest_offset() {
    let mut map = Histogram::new();
    increment_frequency_of_target_start_pos(&mut map, 4, 5);
    increment_frequency_of_target_start_pos(&mut map, 1, 5);
    assert_eq!(get_most_frequently_occuring_key(&map), Some(1));
}
