use openwith::BiMap;

fn s(t: &str) -> String {
    t.to_string()
}

#[test]
fn test_bimap_bijection_after_inserts() {
    // After every insert the two directions stay equal in size and each
    // value looks back to its unique key.
    let mut m = BiMap::new();
    let steps = vec![
        ("public.mpeg-4", "mp4"),
        ("com.apple.quicktime-movie", "mov"),
        ("public.mpeg-4", "mpeg4"),
        ("public.png", "png"),
        ("com.apple.quicktime-movie", "png"),
    ];
    for (k, v) in steps {
        m.insert(s(k), s(v));
        let pairs = m.iter();
        let keys = m.keys();
        let values = m.values();
        assert_eq!(pairs.len(), m.len());
        assert_eq!(keys.len(), m.len());
        assert_eq!(values.len(), m.len());
        for (pk, pv) in &pairs {
            assert_eq!(m.get_by_value(pv), Some(pk));
            assert_eq!(m.get_by_key(pk), Some(pv));
        }
    }
}

#[test]
fn test_bimap_conflict_eviction() {
    let mut m = BiMap::new();
    m.insert(s("k1"), s("v1"));
    m.insert(s("k2"), s("v1"));
    assert_eq!(m.get_by_key(&s("k1")), None);
    assert_eq!(m.get_by_value(&s("v1")), Some(&s("k2")));
    assert_eq!(m.len(), 1);
}

#[test]
fn test_bimap_merge_eviction_return() {
    let mut m = BiMap::new();
    assert_eq!(m.insert(s("a"), s("x")), None);
    assert_eq!(m.insert(s("b"), s("y")), None);
    let evicted = m.insert(s("a"), s("y"));
    assert_eq!(evicted, Some((s("b"), s("x"))));
    assert_eq!(m.len(), 1);
    assert_eq!(m.get_by_key(&s("a")), Some(&s("y")));
}

#[test]
fn test_bimap_insert_same_pair_returns_none() {
    let mut m = BiMap::new();
    assert_eq!(m.insert(s("a"), s("x")), None);
    // Re-inserting the very pair strikes one old pair, not two: no merge.
    assert_eq!(m.insert(s("a"), s("x")), None);
    assert_eq!(m.len(), 1);
}

#[test]
fn test_bimap_remove_both_directions() {
    let mut m = BiMap::new();
    m.insert(s("id1"), s("mp4"));
    m.insert(s("id2"), s("mov"));
    assert_eq!(m.remove_by_key(&s("id1")), Some(s("mp4")));
    assert_eq!(m.get_by_value(&s("mp4")), None);
    assert_eq!(m.remove_by_key(&s("id1")), None);
    assert_eq!(m.remove_by_value(&s("mov")), Some(s("id2")));
    assert!(m.is_empty());
    assert_eq!(m.remove_by_value(&s("mov")), None);
}

#[test]
fn test_bimap_contains_len_clear() {
    let mut m = BiMap::new();
    assert!(m.is_empty());
    m.insert(s("id1"), s("mp4"));
    assert!(m.contains_key(&s("id1")));
    assert!(m.contains_value(&s("mp4")));
    assert!(!m.contains_key(&s("mp4")));
    assert!(!m.contains_value(&s("id1")));
    assert_eq!(m.len(), 1);
    m.clear();
    assert!(m.is_empty());
    assert!(!m.contains_key(&s("id1")));
}
