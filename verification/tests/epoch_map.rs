use duan::algorithms::epoch_map::{EpochMap, EpochOp};

#[test]
fn epoch_map_insert_contains_clear() {
    let mut m = EpochMap::new(5);
    assert!(!m.contains(3));
    m.insert(3);
    assert!(m.contains(3));
    assert!(!m.contains(2));
    m.clear();
    assert!(!m.contains(3));
    m.insert(0);
    m.insert(4);
    assert!(m.contains(0) && m.contains(4) && !m.contains(3));
}

#[test]
fn epoch_map_survives_many_clears() {
    let mut m = EpochMap::new(3);
    for round in 0..1000usize {
        m.insert(round % 3);
        assert!(m.contains(round % 3));
        m.clear();
        for i in 0..3 {
            assert!(!m.contains(i));
        }
    }
}

#[test]
fn epoch_map_member_when_inserted_since_last_clear() {
    let mut m = EpochMap::new(4);
    m.insert(1);
    m.insert(2);
    m.clear();
    m.insert(2);
    m.insert(3);
    assert!(!m.contains(0));
    assert!(!m.contains(1));
    assert!(m.contains(2));
    assert!(m.contains(3));
}

#[test]
fn epoch_map_replay_keeps_inserts_since_last_clear() {
    let ops = vec![
        EpochOp::Insert(0),
        EpochOp::Insert(3),
        EpochOp::Clear,
        EpochOp::Insert(1),
        EpochOp::Insert(3),
    ];
    let m = EpochMap::replay(5, &ops);
    assert!(!m.contains(0));
    assert!(m.contains(1));
    assert!(!m.contains(2));
    assert!(m.contains(3));
    assert!(!m.contains(4));
    let m = EpochMap::replay(3, &vec![EpochOp::Insert(2), EpochOp::Insert(0)]);
    assert!(m.contains(0) && !m.contains(1) && m.contains(2));
    let m = EpochMap::replay(3, &vec![EpochOp::Insert(2), EpochOp::Clear]);
    assert!(!m.contains(0) && !m.contains(1) && !m.contains(2));
}
