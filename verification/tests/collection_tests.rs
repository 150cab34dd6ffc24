use road_graphs::collections::NodeSet;
use road_graphs::random_set::RandomSet;

#[test]
fn random_set_insert_remove() {
    let mut s = RandomSet::new();
    s.insert(3);
    s.insert(7);
    s.insert(3);
    assert_eq!(s.len(), 2);
    s.remove(&3);
    assert_eq!(s.len(), 1);
    assert_eq!(s.choose_random(), Some(7));
    s.remove(&7);
    assert_eq!(s.len(), 0);
    assert_eq!(s.choose_random(), None);
    s.remove(&9);
    assert_eq!(s.len(), 0);
}

#[test]
fn random_set_round_trip() {
    let mut set = NodeSet::new();
    for x in [4, 8, 15, 16, 23, 42] {
        set.insert(x);
    }
    let r = RandomSet::from_set(&set);
    assert_eq!(r.len(), 6);
    let mut back = r.to_set().to_vec();
    back.sort();
    assert_eq!(back, vec![4, 8, 15, 16, 23, 42]);
    for _ in 0..20 {
        let x = r.choose_random().unwrap();
        assert!(set.contains(x));
    }
}

#[test]
fn random_set_removal_keeps_others() {
    let mut r = RandomSet::new();
    for x in 0..10 {
        r.insert(x);
    }
    for x in (0..10).step_by(2) {
        r.remove(&x);
    }
    let mut left = r.to_set().to_vec();
    left.sort();
    assert_eq!(left, vec![1, 3, 5, 7, 9]);
}
