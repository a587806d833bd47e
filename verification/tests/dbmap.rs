use krabmaga::dbmap::DBMap;

#[test]
fn reads_see_the_last_commit_only() {
    let mut m: DBMap<u32> = DBMap::new();
    m.insert(1, 10);
    assert_eq!(m.get(1), None);
    assert!(!m.contains_key(1));
    assert_eq!(m.len(), 0);
    assert_eq!(m.staged_len(), 1);
    m.commit();
    assert_eq!(m.get(1), Some(&10));
    assert_eq!(m.staged_len(), 0);
    m.insert(1, 11);
    m.insert(2, 20);
    m.remove(1);
    assert_eq!(m.get(1), Some(&10));
    assert_eq!(m.get(2), None);
    assert_eq!(m.len(), 1);
    m.commit();
    assert_eq!(m.get(1), None);
    assert_eq!(m.get(2), Some(&20));
    assert_eq!(m.len(), 1);
}

#[test]
fn last_logged_write_wins() {
    let mut m: DBMap<&'static str> = DBMap::new();
    m.insert(5, "first");
    m.insert(5, "second");
    m.commit();
    assert_eq!(m.get(5), Some(&"second"));
    m.remove(5);
    m.insert(5, "third");
    m.commit();
    assert_eq!(m.get(5), Some(&"third"));
    m.insert(5, "fourth");
    m.remove(5);
    m.commit();
    assert_eq!(m.get(5), None);
}

#[test]
fn commit_with_nothing_staged_changes_nothing() {
    let mut m: DBMap<u8> = DBMap::new();
    m.insert(9, 1);
    m.commit();
    m.commit();
    assert_eq!(m.get(9), Some(&1));
    assert_eq!(m.len(), 1);
}
