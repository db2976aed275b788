use tessera::bitmap::word_count;

#[test]
fn word_count_does_not_overflow() {
    for (nrows, expected) in [
        (0, 0),
        (1, 1),
        (63, 1),
        (64, 1),
        (65, 2),
        (usize::MAX - 63, usize::MAX / 64),
        (usize::MAX - 62, usize::MAX / 64 + 1),
        (usize::MAX, usize::MAX / 64 + 1),
    ] {
        assert_eq!(word_count(nrows), expected);
    }
}
