use aho_corasearch::automaton::{
    build_tree, find_iter, find_overlapping_iter, get_match_kind, leftmost_find_iter,
    tree_heap_bytes, Automaton,
};
use aho_corasearch::kinds::{ConstructionError, MatchKind, SearchError};
use aho_corasearch::offsets::{char_positions, to_char_positions, utf8_width_of};

fn she_hers(kind: MatchKind) -> Automaton {
    build_tree(vec![("he", 1), ("she", 2), ("his", 3), ("hers", 4)], kind).unwrap()
}

fn naive_occurrences(pats: &[(&str, usize)], text: &str) -> Vec<(usize, usize, usize)> {
    let t: Vec<char> = text.chars().collect();
    let mut out = Vec::new();
    for (p, v) in pats {
        let pc: Vec<char> = p.chars().collect();
        if pc.len() > t.len() {
            continue;
        }
        for s in 0..=(t.len() - pc.len()) {
            if t[s..s + pc.len()] == pc[..] {
                out.push((s, s + pc.len(), *v));
            }
        }
    }
    out.sort();
    out
}

#[test]
fn leftmost_longest_ushers() {
    // "hers" only starts at 2, so the leftmost match is "she", the one pattern
    // starting at 1; the scan then resumes after it.
    let a = she_hers(MatchKind::LeftmostLongest);
    assert_eq!(leftmost_find_iter(&a, "ushers").unwrap(), vec![(1, 4, 2)]);
}

#[test]
fn leftmost_first_ushers() {
    let a = she_hers(MatchKind::LeftmostFirst);
    assert_eq!(leftmost_find_iter(&a, "ushers").unwrap(), vec![(1, 4, 2)]);
}

#[test]
fn overlapping_ushers() {
    let a = she_hers(MatchKind::Standard);
    let r = find_overlapping_iter(&a, "ushers").unwrap();
    for m in [(1, 4, 2), (2, 6, 4), (2, 4, 1)] {
        assert_eq!(r.iter().filter(|x| **x == m).count(), 1);
    }
    assert_eq!(r, vec![(1, 4, 2), (2, 4, 1), (2, 6, 4)]);
}

#[test]
fn overlapping_matches_naive_search() {
    let pats = [("a", 1), ("ab", 2), ("bab", 3), ("b", 4), ("aa", 5), ("ab", 6), ("a", 1)];
    let a = build_tree(pats.to_vec(), MatchKind::Standard).unwrap();
    for text in ["", "abababa", "aab", "baabab", "xyz", "aaaa"] {
        let mut r = find_overlapping_iter(&a, text).unwrap();
        r.sort();
        assert_eq!(r, naive_occurrences(&pats, text));
    }
}

#[test]
fn overlapping_multibyte_offsets_are_characters() {
    let a = build_tree(vec![("全世界", 0), ("世界", 1), ("に", 2)], MatchKind::Standard).unwrap();
    assert_eq!(
        find_overlapping_iter(&a, "全世界中に").unwrap(),
        vec![(0, 3, 0), (1, 3, 1), (4, 5, 2)]
    );
}

#[test]
fn find_iter_standard_multibyte() {
    let a = build_tree(vec![("全世界", 0), ("世界", 1), ("に", 2)], MatchKind::Standard).unwrap();
    assert_eq!(find_iter(&a, "全世界中に").unwrap(), vec![(0, 3, 0), (4, 5, 2)]);
}

#[test]
fn find_iter_earliest_end_first() {
    let a = she_hers(MatchKind::Standard);
    assert_eq!(find_iter(&a, "ushers").unwrap(), vec![(1, 4, 2)]);
}

#[test]
fn leftmost_longest_multibyte() {
    let a = build_tree(vec![("世界", 0), ("世", 1), ("世界中に", 2)], MatchKind::LeftmostLongest)
        .unwrap();
    assert_eq!(leftmost_find_iter(&a, "世界中に").unwrap(), vec![(0, 4, 2)]);
}

#[test]
fn leftmost_first_multibyte() {
    let a = build_tree(vec![("世界", 0), ("世", 1), ("世界中に", 2)], MatchKind::LeftmostFirst)
        .unwrap();
    assert_eq!(leftmost_find_iter(&a, "世界中に").unwrap(), vec![(0, 2, 0)]);
}

#[test]
fn leftmost_non_overlapping_sorted() {
    let a = build_tree(vec![("ab", 1), ("ba", 2), ("aba", 3)], MatchKind::LeftmostLongest).unwrap();
    let r = leftmost_find_iter(&a, "abababab").unwrap();
    assert_eq!(r, vec![(0, 3, 3), (3, 5, 2), (5, 7, 2)]);
    for w in r.windows(2) {
        assert!(w[0].1 <= w[1].0);
    }
}

#[test]
fn overlapping_same_text_in_insertion_order() {
    let a = build_tree(vec![("a", 9), ("ba", 7), ("a", 8)], MatchKind::Standard).unwrap();
    assert_eq!(
        find_overlapping_iter(&a, "aba").unwrap(),
        vec![(0, 1, 9), (0, 1, 8), (1, 3, 7), (2, 3, 9), (2, 3, 8)]
    );
}

#[test]
fn match_kind_round_trips() {
    for k in [MatchKind::Standard, MatchKind::LeftmostLongest, MatchKind::LeftmostFirst] {
        let a = build_tree(vec![("x", 7)], k).unwrap();
        assert_eq!(get_match_kind(&a), k);
    }
}

#[test]
fn empty_pattern_set_fails() {
    for k in [MatchKind::Standard, MatchKind::LeftmostLongest, MatchKind::LeftmostFirst] {
        assert_eq!(build_tree(vec![], k).err(), Some(ConstructionError::EmptyPatternSet));
    }
}

#[test]
fn empty_pattern_fails() {
    let r = build_tree(vec![("a", 1), ("", 2)], MatchKind::Standard);
    assert_eq!(r.err(), Some(ConstructionError::EmptyPattern));
}

#[test]
fn duplicate_patterns_keep_first_value() {
    let a = build_tree(vec![("ab", 1), ("ab", 2)], MatchKind::Standard).unwrap();
    assert_eq!(find_overlapping_iter(&a, "xab").unwrap(), vec![(1, 3, 1), (1, 3, 2)]);
    assert_eq!(find_iter(&a, "xab").unwrap(), vec![(1, 3, 1)]);
    let f = build_tree(vec![("a", 3), ("ab", 1), ("ab", 2)], MatchKind::LeftmostFirst).unwrap();
    assert_eq!(leftmost_find_iter(&f, "ab").unwrap(), vec![(0, 1, 3)]);
    let l = build_tree(vec![("a", 3), ("ab", 1), ("ab", 2)], MatchKind::LeftmostLongest).unwrap();
    assert_eq!(leftmost_find_iter(&l, "ab").unwrap(), vec![(0, 2, 1)]);
}

#[test]
fn policy_mismatch_is_an_error() {
    let std = she_hers(MatchKind::Standard);
    assert_eq!(leftmost_find_iter(&std, "ushers"), Err(SearchError::PolicyMismatch));
    let lm = she_hers(MatchKind::LeftmostFirst);
    assert_eq!(find_iter(&lm, "ushers"), Err(SearchError::PolicyMismatch));
    assert_eq!(find_overlapping_iter(&lm, "ushers"), Err(SearchError::PolicyMismatch));
}

#[test]
fn empty_text_gives_no_matches() {
    assert_eq!(find_iter(&she_hers(MatchKind::Standard), "").unwrap(), vec![]);
    assert_eq!(find_overlapping_iter(&she_hers(MatchKind::Standard), "").unwrap(), vec![]);
    assert_eq!(leftmost_find_iter(&she_hers(MatchKind::LeftmostLongest), "").unwrap(), vec![]);
}

#[test]
fn repeated_scans_are_identical() {
    let a = she_hers(MatchKind::Standard);
    let text = "ushers his hers she";
    assert_eq!(find_overlapping_iter(&a, text), find_overlapping_iter(&a, text));
    assert_eq!(find_iter(&a, text), find_iter(&a, text));
    let b = she_hers(MatchKind::LeftmostLongest);
    assert_eq!(leftmost_find_iter(&b, text), leftmost_find_iter(&b, text));
}

#[test]
fn heap_bytes_positive_and_stable() {
    let a = she_hers(MatchKind::Standard);
    let before = tree_heap_bytes(&a);
    assert!(before > 0);
    let _ = find_overlapping_iter(&a, "ushers");
    let _ = find_iter(&a, "ushers");
    assert_eq!(tree_heap_bytes(&a), before);
}

#[test]
fn utf8_widths() {
    assert_eq!(utf8_width_of('a'), 1);
    assert_eq!(utf8_width_of('é'), 2);
    assert_eq!(utf8_width_of('世'), 3);
    assert_eq!(utf8_width_of('😀'), 4);
}

#[test]
fn char_position_table() {
    let t = char_positions("a世b");
    assert_eq!(t.len(), 6);
    assert_eq!((t[0], t[1], t[4], t[5]), (0, 1, 2, 3));
    assert_eq!(to_char_positions("a世b", &vec![(1, 4, 9), (4, 5, 8)]), vec![(1, 2, 9), (2, 3, 8)]);
}

#[test]
fn downcase_lowers_unicode() {
    assert_eq!(aho_corasearch::text::downcase("HeLLo ÄÖ"), "hello äö");
    assert_eq!(aho_corasearch::text::downcase(""), "");
}
