//! The sparse tangential-contact memory on its own.

use dem::history::TangHistory;

#[test]
fn test_history_insert_get_remove() {
    let mut h = TangHistory::new();
    assert_eq!(None, h.get(0, 2, 7));

    h.insert(0, 2, 7, 10, -20);
    h.insert(0, 3, 7, 1, 2);
    h.insert(4, 2, 7, 5, 6);
    assert_eq!(Some((10, -20)), h.get(0, 2, 7));
    assert_eq!(Some((1, 2)), h.get(0, 3, 7));
    assert_eq!(Some((5, 6)), h.get(4, 2, 7));

    // replacing a live contact overwrites, never duplicates
    h.insert(0, 2, 7, 11, -21);
    assert_eq!(Some((11, -21)), h.get(0, 2, 7));

    h.remove(0, 2, 7);
    assert_eq!(None, h.get(0, 2, 7));
    assert_eq!(Some((1, 2)), h.get(0, 3, 7));

    // removing an absent contact is harmless
    h.remove(9, 9, 9);
    assert_eq!(Some((5, 6)), h.get(4, 2, 7));
}
