use submission_similarity::boilerplate::{document_frequencies, remove_boilerplate, GramSet};
use submission_similarity::profile::gram_key_of;

#[test]
fn gram_set_of_text() {
    let s = GramSet::of_text("abcab");
    assert_eq!(s.len(), 3);
    assert!(s.contains(['a', 'b', 'c']));
    assert!(s.contains(['b', 'c', 'a']));
    assert!(s.contains(['c', 'a', 'b']));
    assert!(!s.contains(['a', 'a', 'a']));
    assert!(GramSet::of_text("ab").is_empty());
    assert!(GramSet::new().is_empty());
}

#[test]
fn gram_set_of_non_ascii_text() {
    let s = GramSet::of_text("éàü");
    assert_eq!(s.len(), 1);
    assert!(s.contains(['é', 'à', 'ü']));
}

#[test]
fn gram_set_union_and_insert() {
    let a = GramSet::of_text("abcd");
    let b = GramSet::of_text("bcde");
    let u = a.union(&b);
    assert_eq!(u.len(), 3);
    assert!(u.contains(['a', 'b', 'c']) && u.contains(['b', 'c', 'd']) && u.contains(['c', 'd', 'e']));
    let mut s = GramSet::new();
    s.insert(['x', 'y', 'z']);
    s.insert(['x', 'y', 'z']);
    s.insert(['a', 'a', 'a']);
    assert_eq!(s.len(), 2);
    let zzz = gram_key_of(['z', 'z', 'z']);
    let aaa = gram_key_of(['a', 'a', 'a']);
    let f = GramSet::from_keys(&[zzz, aaa, zzz]);
    assert_eq!(f.len(), 2);
    assert!(f.contains(['z', 'z', 'z']) && f.contains(['a', 'a', 'a']));
}

#[test]
fn gram_keys_are_base_two_to_the_21_numbers() {
    assert_eq!(gram_key_of(['a', 'b', 'c']), 97 * (1u64 << 42) + 98 * (1u64 << 21) + 99);
    assert_eq!(gram_key_of(['\0', '\0', '\u{1}']), 1);
    assert_ne!(gram_key_of(['a', 'b', 'c']), gram_key_of(['c', 'b', 'a']));
}

#[test]
fn document_frequencies_count_submissions() {
    let texts = vec!["abcabc".to_string(), "abcd".to_string(), "xyz".to_string()];
    let freqs = document_frequencies(&texts);
    assert_eq!(
        freqs,
        vec![
            (gram_key_of(['a', 'b', 'c']), 2),
            (gram_key_of(['b', 'c', 'a']), 1),
            (gram_key_of(['b', 'c', 'd']), 1),
            (gram_key_of(['c', 'a', 'b']), 1),
            (gram_key_of(['x', 'y', 'z']), 1),
        ]
    );
    assert_eq!(document_frequencies(&vec![]), vec![]);
}

#[test]
fn boilerplate_removal_skips_gram_characters() {
    let mut set = GramSet::new();
    set.insert(['d', 'e', 'f']);
    assert_eq!(remove_boilerplate("defx=1", &set), "x=1");
    assert_eq!(remove_boilerplate("xdefdefy", &set), "xy");
    assert_eq!(remove_boilerplate("de", &set), "de");
    assert_eq!(remove_boilerplate("abc", &GramSet::new()), "abc");
}

#[test]
fn boilerplate_removal_keeps_non_ascii_characters() {
    let mut set = GramSet::new();
    set.insert(['d', 'e', 'f']);
    assert_eq!(remove_boilerplate("s='é'", &set), "s='é'");
    assert_eq!(remove_boilerplate("àdefü", &set), "àü");
    let mut accented = GramSet::new();
    accented.insert(['é', 'é', 'é']);
    assert_eq!(remove_boilerplate("xéééy", &accented), "xy");
}
