use earp::equiv::EquivalenceClass;

#[test]
fn test_equiv_merges_and_build_keeps_classes() {
    let mut eq = EquivalenceClass::new();
    eq.equiv(10, 11);
    eq.equiv(12, 13);
    eq.equiv(11, 13);
    let before: Vec<usize> = (10..14).map(|x| eq.canon(x)).collect();
    assert!(before.iter().all(|r| *r == before[0]));
    assert_eq!(eq.canon(14), 14);
    eq.build();
    for x in 10..14 {
        assert_eq!(eq.get(x), before[0]);
        assert_eq!(eq.canon(x), before[0]);
    }
    assert_eq!(eq.get(14), 14);
}

use earp::equiv::EquivalenceMap;

fn add_merge(a: &u32, b: &u32) -> Result<u32, String> {
    if *a == 0 || *b == 0 {
        Err(format!("cannot merge {} and {}", a, b))
    } else {
        Ok(a + b)
    }
}

#[test]
fn test_equivalence_map_merges_values() {
    let mut m = EquivalenceMap::new(add_merge);
    assert!(m.set(1, 5).is_ok());
    assert!(m.set(2, 7).is_ok());
    assert_eq!(m.get(1), Some(&5));
    assert!(m.equiv(1, 2).is_ok());
    assert_eq!(m.get(2), Some(&12));
    assert_eq!(m.get(1), Some(&12));
    assert!(m.set(2, 1).is_ok());
    assert_eq!(m.get(1), Some(&13));
    assert!(m.equiv(3, 1).is_ok());
    assert_eq!(m.get(3), Some(&13));
    assert_eq!(m.get(9), None);
    let mut keys: Vec<usize> = m.keys().iter().cloned().collect();
    keys.sort();
    assert_eq!(keys, vec![1, 2, 3]);
}

#[test]
fn test_equivalence_map_merge_failure() {
    let mut m = EquivalenceMap::new(add_merge);
    assert!(m.set(1, 4).is_ok());
    assert_eq!(m.set(1, 0).unwrap_err(), "cannot merge 0 and 4");
    assert_eq!(m.get(1), Some(&4));
    assert!(m.set(2, 0).is_ok());
    assert_eq!(m.equiv(1, 2).unwrap_err(), "cannot merge 4 and 0");
    assert_eq!(m.get(2), Some(&4));
}
