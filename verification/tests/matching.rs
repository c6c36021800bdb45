use reks::matching::{find_slot, match_entity};
use reks::request::{granted_requirements, SystemReq};
use reks::{Access, CompChk, QueryError, Read, Requirement, Write};

#[test]
fn find_slot_takes_the_first_pair_of_the_type() {
    let record: Vec<(u64, usize)> = vec![(4, 10), (2, 11), (4, 12), (9, 13)];
    assert_eq!(find_slot(&record, 4), Some(10));
    assert_eq!(find_slot(&record, 2), Some(11));
    assert_eq!(find_slot(&record, 9), Some(13));
    assert_eq!(find_slot(&record, 3), None);
    assert_eq!(find_slot(&Vec::new(), 4), None);
}

#[test]
fn match_entity_resolves_in_the_order_of_the_keys() {
    let record: Vec<(u64, usize)> = vec![(4, 10), (2, 11), (9, 13)];
    assert_eq!(match_entity(&record, &vec![9, 4]), Some(vec![13, 10]));
    assert_eq!(match_entity(&record, &vec![2, 2, 4]), Some(vec![11, 11, 10]));
    assert_eq!(match_entity(&record, &vec![4, 3]), None);
    assert_eq!(match_entity(&record, &Vec::new()), Some(Vec::new()));
    assert_eq!(match_entity(&Vec::new(), &vec![4]), None);
}

#[test]
fn c_set_of_a_pair_acquires_in_order() {
    let mut chk = CompChk::new();
    chk.register(1);
    chk.register(2);
    let mut store: Vec<u64> = Vec::new();
    assert_eq!(<(Write<1>, Read<2>)>::c_set(&mut store, &mut chk), Ok(()));
    assert_eq!(store, vec![1, 2]);
    assert_eq!(chk.state(1), Some(-1));
    assert_eq!(chk.state(2), Some(1));
    let granted = granted_requirements(&store, &chk);
    assert_eq!(
        granted,
        vec![
            Requirement { key: 1, access: Access::Write },
            Requirement { key: 2, access: Access::Read },
        ]
    );
}

#[test]
fn c_set_stops_at_the_first_refusal() {
    let mut chk = CompChk::new();
    chk.register(1);
    chk.register(2);
    let mut store: Vec<u64> = vec![7];
    assert_eq!(
        <(Read<2>, Write<1>, Read<1>)>::c_set(&mut store, &mut chk),
        Err(QueryError::BorrowConflict)
    );
    assert_eq!(store, vec![7, 2, 1]);
    assert_eq!(chk.state(1), Some(-1));
    assert_eq!(chk.state(2), Some(1));

    let mut store: Vec<u64> = Vec::new();
    chk.return_all();
    assert_eq!(
        <(Read<2>, Read<3>, Write<1>)>::c_set(&mut store, &mut chk),
        Err(QueryError::UnknownComponent)
    );
    assert_eq!(store, vec![2]);
    assert_eq!(chk.state(1), Some(0));
    assert_eq!(chk.state(2), Some(1));
}

#[test]
fn c_set_of_single_requirements() {
    let mut chk = CompChk::new();
    chk.register(5);
    let mut store: Vec<u64> = Vec::new();
    assert_eq!(Read::<5>::c_set(&mut store, &mut chk), Ok(()));
    assert_eq!(<(Read<5>,)>::c_set(&mut store, &mut chk), Ok(()));
    assert_eq!(Write::<5>::c_set(&mut store, &mut chk), Err(QueryError::BorrowConflict));
    assert_eq!(Write::<6>::c_set(&mut store, &mut chk), Err(QueryError::UnknownComponent));
    assert_eq!(store, vec![5, 5]);
    assert_eq!(chk.state(5), Some(2));
}
