use arid::suffix::{build_lcp_array, build_suffix_array, SuffixError};

fn reference_suffix_array(tokens: &[u32]) -> Vec<u32> {
    let mut suffixes: Vec<u32> = (0..tokens.len() as u32).collect();
    suffixes.sort_by(|&left, &right| tokens[left as usize..].cmp(&tokens[right as usize..]));
    suffixes
}

fn reference_lcp_array(tokens: &[u32], suffixes: &[u32]) -> Vec<u32> {
    let mut lcp = vec![0_u32; suffixes.len()];
    for index in 1..suffixes.len() {
        let left = suffixes[index - 1] as usize;
        let right = suffixes[index] as usize;
        let mut common = 0_usize;
        while left + common < tokens.len()
            && right + common < tokens.len()
            && tokens[left + common] == tokens[right + common]
        {
            common += 1;
        }
        lcp[index] = common as u32;
    }
    lcp
}

#[test]
fn empty_sequence_has_empty_suffix_array() {
    assert_eq!(build_suffix_array(&[]).unwrap(), Vec::<u32>::new());
}

#[test]
fn single_token_has_one_suffix() {
    assert_eq!(build_suffix_array(&[42]).unwrap(), vec![0]);
}

#[test]
fn orders_distinct_tokens() {
    let tokens = [30, 10, 20];
    assert_eq!(build_suffix_array(&tokens).unwrap(), vec![1, 2, 0]);
}

#[test]
fn orders_repeated_tokens_by_remaining_suffix() {
    let tokens = [1, 1, 1, 1];
    assert_eq!(build_suffix_array(&tokens).unwrap(), vec![3, 2, 1, 0]);
}

#[test]
fn matches_reference_for_mixed_sequence() {
    let tokens = [2, 1, 2, 1, 0, 2, 1];
    assert_eq!(build_suffix_array(&tokens).unwrap(), reference_suffix_array(&tokens));
}

#[test]
fn handles_unique_segment_sentinels_as_normal_tokens() {
    let tokens = [0, 1, 4, 0, 1, 5, 0, 2, 6];
    assert_eq!(build_suffix_array(&tokens).unwrap(), reference_suffix_array(&tokens));
}

#[test]
fn handles_long_repetitive_sequences() {
    let tokens = vec![7; 128];
    assert_eq!(build_suffix_array(&tokens).unwrap(), reference_suffix_array(&tokens));
}

#[test]
fn matches_reference_exhaustively_for_small_sequences() {
    const ALPHABET_SIZE: usize = 3;

    for length in 0..=7 {
        let sequence_count = ALPHABET_SIZE.pow(length as u32);

        for encoded in 0..sequence_count {
            let mut value = encoded;
            let mut tokens = vec![0_u32; length];

            for token in &mut tokens {
                *token = (value % ALPHABET_SIZE) as u32;
                value /= ALPHABET_SIZE;
            }

            let expected_suffixes = reference_suffix_array(&tokens);
            let actual_suffixes = build_suffix_array(&tokens).unwrap();
            assert_eq!(actual_suffixes, expected_suffixes, "suffix array failed for {tokens:?}");

            let expected_lcp = reference_lcp_array(&tokens, &expected_suffixes);
            let actual_lcp = build_lcp_array(&tokens, &actual_suffixes).unwrap();
            assert_eq!(actual_lcp, expected_lcp, "LCP array failed for {tokens:?}");
        }
    }
}

#[test]
fn empty_sequence_has_empty_lcp_array() {
    let suffixes = build_suffix_array(&[]).unwrap();
    assert_eq!(build_lcp_array(&[], &suffixes).unwrap(), Vec::<u32>::new());
}

#[test]
fn single_token_has_zero_lcp() {
    let tokens = [42];
    let suffixes = build_suffix_array(&tokens).unwrap();
    assert_eq!(build_lcp_array(&tokens, &suffixes).unwrap(), vec![0]);
}

#[test]
fn computes_known_lcp_array() {
    let tokens = [1, 2, 1, 2, 1];
    let suffixes = build_suffix_array(&tokens).unwrap();
    let lcp = build_lcp_array(&tokens, &suffixes).unwrap();
    assert_eq!(suffixes, vec![4, 2, 0, 3, 1]);
    assert_eq!(lcp, vec![0, 1, 3, 0, 2]);
}

#[test]
fn computes_lcp_for_repeated_tokens() {
    let tokens = [7, 7, 7, 7];
    let suffixes = build_suffix_array(&tokens).unwrap();
    assert_eq!(suffixes, vec![3, 2, 1, 0]);
    assert_eq!(build_lcp_array(&tokens, &suffixes).unwrap(), vec![0, 1, 2, 3]);
}

#[test]
fn lcp_matches_reference_for_mixed_sequence() {
    let tokens = [2, 1, 2, 1, 0, 2, 1];
    let suffixes = build_suffix_array(&tokens).unwrap();
    assert_eq!(
        build_lcp_array(&tokens, &suffixes).unwrap(),
        reference_lcp_array(&tokens, &suffixes)
    );
}

#[test]
fn rejects_lcp_suffix_array_with_wrong_length() {
    let error = build_lcp_array(&[1, 2, 3], &[0, 1]).unwrap_err();
    assert!(matches!(error, SuffixError::InvalidLength { expected: 3, actual: 2 }));
}

#[test]
fn rejects_out_of_range_suffix_position() {
    let error = build_lcp_array(&[1, 2, 3], &[0, 1, 3]).unwrap_err();
    assert!(matches!(error, SuffixError::InvalidPosition { position: 3, length: 3 }));
}

#[test]
fn rejects_duplicate_suffix_position() {
    let error = build_lcp_array(&[1, 2, 3], &[0, 1, 1]).unwrap_err();
    assert!(matches!(error, SuffixError::DuplicatePosition(1)));
}

#[test]
fn suffix_array_is_unique_for_long_random_like_input() {
    let mut tokens = Vec::new();
    let mut state: u32 = 12345;
    for _ in 0..500 {
        state = state.wrapping_mul(1103515245).wrapping_add(12345);
        tokens.push((state >> 16) % 4);
    }
    let suffixes = build_suffix_array(&tokens).unwrap();
    assert_eq!(suffixes, reference_suffix_array(&tokens));
    assert_eq!(build_lcp_array(&tokens, &suffixes).unwrap(), reference_lcp_array(&tokens, &suffixes));
}

#[test]
fn lcp_values_hold_for_unsorted_suffix_order() {
    let lcp = build_lcp_array(&[1, 1, 1, 2], &[3, 1, 0, 2]).unwrap();
    assert_eq!(lcp, vec![0, 0, 2, 1]);
}
