use golomb_vanguard::known::{optimal_length, required_words, OGR_OPTIMAL};

#[test]
fn optimal_length_reads_the_table() {
    assert_eq!(optimal_length(0), Some(0));
    assert_eq!(optimal_length(2), Some(1));
    assert_eq!(optimal_length(10), Some(55));
    assert_eq!(optimal_length(28), Some(585));
    assert_eq!(optimal_length(29), None);
    assert_eq!(OGR_OPTIMAL.len(), 29);
}

#[test]
fn required_words_covers_max_bit() {
    assert_eq!(required_words(0), 1);
    assert_eq!(required_words(63), 1);
    assert_eq!(required_words(64), 2);
    assert_eq!(required_words(127), 2);
    assert_eq!(required_words(128), 3);
}
