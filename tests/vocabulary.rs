use bpe_train::vocabulary::Vocabulary;

#[test]
fn insert_assigns_dense_ids() {
    let mut v = Vocabulary::new(5, 8);
    v.insert("x".to_string());
    v.insert("y".to_string());
    assert_eq!(v.get(&"x".to_string()), Some(0));
    assert_eq!(v.get(&"y".to_string()), Some(1));
    assert_eq!(v.get_reverse(&0), "x");
    assert_eq!(v.get_reverse(&1), "y");
    assert_eq!(v.max_token_length(), 8);
}

#[test]
fn lookups_are_inverse() {
    let mut v = Vocabulary::new(5, 8);
    for t in ["p", "q", "pq", "r"] {
        v.insert(t.to_string());
    }
    for id in 0..v.len() {
        assert_eq!(v.get(&v.get_reverse(&id)), Some(id));
    }
}

#[test]
fn insert_twice_is_idempotent() {
    let mut v = Vocabulary::new(5, 8);
    v.insert("x".to_string());
    v.insert("y".to_string());
    let before = v.tokens().clone();
    v.insert("y".to_string());
    assert_eq!(v.len(), 2);
    assert_eq!(v.tokens(), &before);
    assert_eq!(v.get(&"y".to_string()), Some(1));
}

#[test]
fn full_vocabulary_drops_inserts() {
    let mut v = Vocabulary::new(2, 8);
    v.insert("a".to_string());
    v.insert("b".to_string());
    v.insert("c".to_string());
    v.insert("d".to_string());
    assert_eq!(v.len(), 2);
    assert_eq!(v.get(&"c".to_string()), None);
}

#[test]
fn zero_capacity_holds_nothing() {
    let mut v = Vocabulary::new(0, 8);
    v.insert("a".to_string());
    assert_eq!(v.len(), 0);
    assert_eq!(v.get(&"a".to_string()), None);
}
