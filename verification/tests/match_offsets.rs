use fff_index::match_offsets::{char_indices_to_byte_offsets, merge_byte_offsets, ByteRanges};

#[test]
fn offsets_match_character_ranges() {
    for line in ["", "abcdefghij", "aé文🦀e\u{301}z", "é🦀a文bc"] {
        let ranges: Vec<(u32, u32)> = line
            .char_indices()
            .map(|(start, ch)| (start as u32, (start + ch.len_utf8()) as u32))
            .collect();
        for mask in 0..1u32 << (ranges.len() + 1) {
            let indices: Vec<u32> = (0..=ranges.len())
                .filter(|i| mask & (1 << i) != 0)
                .map(|i| i as u32)
                .collect();
            let actual = char_indices_to_byte_offsets(line, &indices);
            let mut expected: Vec<(u32, u32)> = Vec::new();
            for &index in &indices {
                let Some(&(start, end)) = ranges.get(index as usize) else {
                    continue;
                };
                match expected.last_mut() {
                    Some(last) if last.1 == start => last.1 = end,
                    _ => expected.push((start, end)),
                }
            }
            assert_eq!(actual.as_slice(), expected, "{line:?}, {indices:?}");
        }
    }
}

#[test]
fn contiguous_matches_stay_inline() {
    let indices: Vec<u32> = (0..100).collect();
    let ranges = char_indices_to_byte_offsets(&"x".repeat(100), &indices);
    assert_eq!(ranges.as_slice(), &[(0, 100)]);
    assert!(!ranges.spilled());
}

#[test]
fn duplicate_and_out_of_bounds_indices() {
    assert_eq!(
        char_indices_to_byte_offsets("aé🦀", &[0, 0, 1, 2, 3, u32::MAX]).as_slice(),
        &[(0, 1), (0, 7)]
    );
}

#[test]
fn merge_offsets_reuses_storage() {
    let mut ranges = ByteRanges::new();
    for range in [
        (20, 25),
        (2, 6),
        (0, 3),
        (6, 10),
        (11, 11),
        (24, 30),
        (40, 45),
    ] {
        ranges.push(range);
    }
    let storage = ranges.as_slice().as_ptr();
    let merged = merge_byte_offsets(ranges);
    assert_eq!(merged.as_slice(), &[(0, 10), (20, 30), (40, 45)]);
    assert_eq!(merged.as_slice().as_ptr(), storage);
}

#[test]
fn more_than_four_ranges_spill() {
    let mut ranges = ByteRanges::new();
    assert_eq!(ranges.len(), 0);
    for i in 0..4u32 {
        ranges.push((10 * i, 10 * i + 1));
    }
    assert!(!ranges.spilled());
    ranges.push((50, 51));
    assert!(ranges.spilled());
    assert_eq!(ranges.len(), 5);
    assert_eq!(ranges.as_slice()[4], (50, 51));
}

#[test]
fn merging_nothing_gives_nothing() {
    assert_eq!(merge_byte_offsets(ByteRanges::new()).len(), 0);
}
