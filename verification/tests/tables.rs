//! The aggregation algebra on concrete tables: merge order, additivity, and
//! pruning.

use libtwc::LanguageMap;

fn count(m: &LanguageMap, lang: &str, w: &str) -> Option<u64> {
    m.get(&lang.to_string()).and_then(|wm| wm.get(&w.to_string()))
}

fn local_one() -> LanguageMap {
    let mut t = LanguageMap::new();
    t.add_word(&"en".to_string(), &"hello".to_string(), 3);
    t.add_word(&"en".to_string(), &"world".to_string(), 1);
    t.add_word(&"de".to_string(), &"hallo".to_string(), 2);
    t
}

fn local_two() -> LanguageMap {
    let mut t = LanguageMap::new();
    t.add_word(&"en".to_string(), &"hello".to_string(), 4);
    t.add_word(&"fr".to_string(), &"salut".to_string(), 5);
    t
}

fn local_three() -> LanguageMap {
    let mut t = LanguageMap::new();
    t.add_word(&"en".to_string(), &"world".to_string(), 7);
    t
}

#[test]
fn add_word_accumulates() {
    let mut t = LanguageMap::new();
    t.add_word(&"en".to_string(), &"hi".to_string(), 1);
    t.add_word(&"en".to_string(), &"hi".to_string(), 1);
    assert_eq!(count(&t, "en", "hi"), Some(2));
    assert_eq!(count(&t, "en", "absent"), None);
    assert!(t.get(&"de".to_string()).is_none());
}

#[test]
fn add_word_saturates_instead_of_overflowing() {
    let mut t = LanguageMap::new();
    t.add_word(&"en".to_string(), &"hi".to_string(), u64::MAX - 1);
    t.add_word(&"en".to_string(), &"hi".to_string(), 5);
    assert_eq!(count(&t, "en", "hi"), Some(u64::MAX));
}

#[test]
fn merge_order_does_not_matter() {
    let mut a = LanguageMap::new();
    a.merge(&local_one());
    a.merge(&local_two());
    a.merge(&local_three());

    let mut b = LanguageMap::new();
    b.merge(&local_three());
    b.merge(&local_one());
    b.merge(&local_two());

    let mut c = LanguageMap::new();
    c.merge(&local_two());
    c.merge(&local_three());
    c.merge(&local_one());

    for m in [&a, &b, &c] {
        assert_eq!(count(m, "en", "hello"), Some(7));
        assert_eq!(count(m, "en", "world"), Some(8));
        assert_eq!(count(m, "de", "hallo"), Some(2));
        assert_eq!(count(m, "fr", "salut"), Some(5));
        assert_eq!(m.num_languages(), 3);
    }
}

#[test]
fn merging_twice_doubles_every_count() {
    let local = local_one();
    let mut global = LanguageMap::new();
    global.merge(&local);
    global.merge(&local);
    assert_eq!(count(&global, "en", "hello"), Some(6));
    assert_eq!(count(&global, "en", "world"), Some(2));
    assert_eq!(count(&global, "de", "hallo"), Some(4));
}

#[test]
fn prune_removes_exactly_the_rare_words() {
    let mut t = LanguageMap::new();
    t.add_word(&"en".to_string(), &"common".to_string(), 5);
    t.add_word(&"en".to_string(), &"rare".to_string(), 2);
    t.add_word(&"de".to_string(), &"selten".to_string(), 1);
    t.prune(3);
    assert_eq!(count(&t, "en", "common"), Some(5));
    assert_eq!(count(&t, "en", "rare"), None);
    assert_eq!(count(&t, "de", "selten"), None);
    // languages survive even when all their words are removed
    assert_eq!(t.num_languages(), 2);
    assert_eq!(t.get(&"en".to_string()).unwrap().num_words(), 1);
    assert_eq!(t.get(&"de".to_string()).unwrap().num_words(), 0);
}

#[test]
fn prune_at_threshold_keeps_equal_counts() {
    let mut t = LanguageMap::new();
    t.add_word(&"en".to_string(), &"edge".to_string(), 3);
    t.prune(3);
    assert_eq!(count(&t, "en", "edge"), Some(3));
}
