use event_chain::chain::{Chain, Event};

#[test]
fn empty_chain_has_no_head() {
    let c = Chain::new();
    assert_eq!(c.head(), None);
    assert_eq!(c.len(), 0);
    assert!(c.get_event_by_hash(0).is_none());
    assert!(c.get_parent(0).is_none());
}

#[test]
fn append_returns_head_and_lookup_finds_entries() {
    let mut c = Chain::new();
    let h1 = c.add(Event::new("alpha".to_string(), vec![1]));
    let h2 = c.add(Event::new("beta".to_string(), vec![2, 3]));
    let h3 = c.add(Event::new("gamma".to_string(), vec![]));
    assert_eq!(c.head(), Some(h3));
    assert_eq!(c.len(), 3);

    let m1 = c.get_event_by_hash(h1).expect("first entry");
    assert_eq!(m1.hash(), h1);
    assert_eq!(m1.event().type_(), "alpha");
    assert_eq!(m1.event().data(), &vec![1u8]);
    assert_eq!(m1.event().parent(), None);

    let m2 = c.get_event_by_hash(h2).expect("second entry");
    assert_eq!(m2.event().type_(), "beta");
    assert_eq!(m2.event().data(), &vec![2u8, 3u8]);
    assert_eq!(m2.event().parent(), Some(h1));

    let m3 = c.get_event_by_hash(h3).expect("third entry");
    assert_eq!(m3.event().parent(), Some(h2));
}

#[test]
fn parent_traversal_walks_back_one_step() {
    let mut c = Chain::new();
    let h1 = c.add(Event::new("one".to_string(), vec![1]));
    let h2 = c.add(Event::new("two".to_string(), vec![2]));
    let h3 = c.add(Event::new("three".to_string(), vec![3]));

    assert!(c.get_parent(h1).is_none());
    let p2 = c.get_parent(h2).expect("parent of second");
    assert_eq!(p2.hash(), h1);
    assert_eq!(p2.event().type_(), "one");
    let p3 = c.get_parent(h3).expect("parent of third");
    assert_eq!(p3.hash(), h2);
}

#[test]
fn hash_ignores_chain_position() {
    let mut c = Chain::new();
    let h1 = c.add(Event::new("x".to_string(), vec![1, 2, 3]));
    let _ = c.add(Event::new("unrelated".to_string(), vec![9]));
    let h3 = c.add(Event::new("x".to_string(), vec![1, 2, 3]));
    assert_eq!(h1, h3);
    assert_eq!(c.len(), 3);
}

#[test]
fn identical_appends_make_two_entries_sharing_a_hash() {
    let mut c = Chain::new();
    let h1 = c.add(Event::new("dup".to_string(), vec![7]));
    let h2 = c.add(Event::new("dup".to_string(), vec![7]));
    assert_eq!(h1, h2);
    assert_eq!(c.len(), 2);
    let m = c.get_event_by_hash(h2).expect("earliest match");
    assert_eq!(m.event().parent(), None);
}

#[test]
fn hash_depends_on_contents() {
    let mut c = Chain::new();
    let h1 = c.add(Event::new("a".to_string(), vec![1]));
    let h2 = c.add(Event::new("a".to_string(), vec![2]));
    let h3 = c.add(Event::new("b".to_string(), vec![1]));
    assert_ne!(h1, h2);
    assert_ne!(h1, h3);
}
