use search_core::extract_word_pair_proximity_docids::{
    process_document_tokens, word_positions_into_word_pair_proximity, DelAdd, DocumentChange,
    WordPairProximities, WordPairProximityDocidsExtractor,
};
use std::collections::VecDeque;

fn tokens(words: &[(&str, u16)]) -> Vec<(String, u16)> {
    words.iter().map(|(w, p)| (w.to_string(), *p)).collect()
}

fn pairs(found: &WordPairProximities) -> Vec<(&str, &str, Option<u8>, Option<u8>)> {
    found.entries.iter().map(|e| (e.left.as_str(), e.right.as_str(), e.del, e.add)).collect()
}

#[test]
fn head_word_pairs_with_the_window() {
    let mut window: VecDeque<(String, u16)> =
        tokens(&[("a", 0), ("b", 1), ("a", 0), ("c", 7), ("d", 8)]).into();
    let mut found = WordPairProximities::new();
    word_positions_into_word_pair_proximity(&mut window, &mut found, false).unwrap();
    // "a" at the same position is at distance 0 and "d" at distance 8: neither counts
    assert_eq!(pairs(&found), vec![("a", "b", None, Some(1)), ("a", "c", None, Some(7))]);
    assert_eq!(window.len(), 4);
    assert_eq!(window[0], ("b".to_string(), 1));
}

#[test]
fn smallest_distance_is_kept() {
    let mut found = WordPairProximities::new();
    found.record("a".to_string(), "b".to_string(), 4, false);
    found.record("a".to_string(), "b".to_string(), 2, false);
    found.record("a".to_string(), "b".to_string(), 3, false);
    found.record("b".to_string(), "a".to_string(), 5, true);
    assert_eq!(pairs(&found), vec![("a", "b", None, Some(2)), ("b", "a", Some(5), None)]);
    // a pair met on the other side gets its distance there
    found.record("a".to_string(), "b".to_string(), 6, true);
    found.record("b".to_string(), "a".to_string(), 1, false);
    assert_eq!(pairs(&found), vec![("a", "b", Some(6), Some(2)), ("b", "a", Some(5), Some(1))]);
    found.record("b".to_string(), "a".to_string(), 1, true);
    found.record("a".to_string(), "b".to_string(), 7, true);
    assert_eq!(pairs(&found), vec![("a", "b", Some(6), Some(2)), ("b", "a", Some(1), Some(1))]);
}

#[test]
fn window_is_drained_when_words_get_far() {
    let mut window = VecDeque::new();
    let mut found = WordPairProximities::new();
    let document = tokens(&[("the", 0), ("quick", 1), ("fox", 2), ("jumps", 9)]);
    process_document_tokens(&document, &mut window, &mut found, false).unwrap();
    assert!(window.is_empty());
    assert_eq!(
        pairs(&found),
        vec![
            ("the", "quick", None, Some(1)),
            ("the", "fox", None, Some(2)),
            ("quick", "fox", None, Some(1)),
            // "the" and "quick" left the window when "jumps" came; "fox" is 7 away
            ("fox", "jumps", None, Some(7)),
        ]
    );
}

#[test]
fn repeated_words_keep_the_nearest_occurrence() {
    let mut window = VecDeque::new();
    let mut found = WordPairProximities::new();
    let document = tokens(&[("a", 0), ("b", 3), ("a", 4), ("b", 5)]);
    process_document_tokens(&document, &mut window, &mut found, true).unwrap();
    assert_eq!(
        pairs(&found),
        vec![
            ("a", "b", Some(1), None),
            ("a", "a", Some(4), None),
            ("b", "a", Some(1), None),
            ("b", "b", Some(2), None),
        ]
    );
}

#[test]
fn insertion_only_adds() {
    let change = DocumentChange::Insertion { docid: 42, new: tokens(&[("big", 0), ("house", 1)]) };
    assert_eq!(change.docid(), 42);
    let entries = WordPairProximityDocidsExtractor::extract_document_change(change).unwrap();
    let shown: Vec<(&[u8], u32, DelAdd)> =
        entries.iter().map(|e| (e.key.as_slice(), e.docid, e.side)).collect();
    assert_eq!(
        shown,
        vec![(&b"\x01big\x00house"[..], 42, DelAdd::Addition)]
    );
}

#[test]
fn update_compares_old_and_new_version() {
    let change = DocumentChange::Update {
        docid: 7,
        current: tokens(&[("big", 0), ("red", 1), ("house", 2)]),
        new: tokens(&[("big", 0), ("house", 1), ("boat", 2)]),
    };
    let entries = WordPairProximityDocidsExtractor::extract_document_change(change).unwrap();
    let shown: Vec<(Vec<u8>, DelAdd)> = entries.iter().map(|e| (e.key.clone(), e.side)).collect();
    let key = |prox: u8, left: &str, right: &str| {
        let mut key = vec![prox];
        key.extend_from_slice(left.as_bytes());
        key.push(0);
        key.extend_from_slice(right.as_bytes());
        key
    };
    assert_eq!(
        shown,
        vec![
            // found in the old version only
            (key(1, "big", "red"), DelAdd::Deletion),
            // found in both, at another distance
            (key(2, "big", "house"), DelAdd::Deletion),
            (key(1, "big", "house"), DelAdd::Addition),
            (key(1, "red", "house"), DelAdd::Deletion),
            // found in the new version only
            (key(2, "big", "boat"), DelAdd::Addition),
            (key(1, "house", "boat"), DelAdd::Addition),
        ]
    );
    assert!(entries.iter().all(|e| e.docid == 7));
    assert!(entries.iter().all(|e| 1 <= e.key[0] && e.key[0] < 8));
}

#[test]
fn deletion_and_empty_documents() {
    let change = DocumentChange::Deletion { docid: 3, current: tokens(&[("a", 0), ("b", 1)]) };
    let entries = WordPairProximityDocidsExtractor::extract_document_change(change).unwrap();
    assert_eq!(entries.len(), 1);
    assert_eq!(entries[0].key, b"\x01a\x00b");
    assert_eq!(entries[0].side, DelAdd::Deletion);
    let change = DocumentChange::Deletion { docid: 3, current: vec![] };
    assert!(WordPairProximityDocidsExtractor::extract_document_change(change).unwrap().is_empty());
    let change = DocumentChange::Insertion { docid: 3, new: tokens(&[("alone", 0)]) };
    assert!(WordPairProximityDocidsExtractor::extract_document_change(change).unwrap().is_empty());
    assert!(WordPairProximityDocidsExtractor::attributes_to_skip().unwrap().is_empty());
}
