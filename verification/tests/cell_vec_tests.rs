use rtracer::cell_vec::CellVec;

#[test]
fn empty() {
    let v = CellVec::<usize>::new(0);
    assert_eq!(v.len(), 0);
    assert_eq!(v.capacity(), 0);

    let v = CellVec::<usize>::new(10);
    assert_eq!(v.len(), 0);
    assert_eq!(v.capacity(), 10);
}

#[test]
fn push_n_pop() {
    let mut v = CellVec::new(3);
    v.push("1a").expect("able to push");
    v.push("2b").expect("able to push");
    v.push("3c").expect("able to push");
    v.push("4b")
        .expect_err("since capacity full, it should be unable to push");
    v.push("5b")
        .expect_err("since capacity full, it should be unable to push");

    assert_eq!(v.pop(), Some("3c"));
    assert_eq!(v.pop(), Some("2b"));
    assert_eq!(v.pop(), Some("1a"));
    assert_eq!(v.pop(), None);
    assert_eq!(v.pop(), None);
}

#[test]
fn clear() {
    let mut v = CellVec::<&'static str>::new(10);
    v.push("1").expect("able to push");
    v.push("1").expect("able to push");
    v.push("1").expect("able to push");

    v.clear();
}

#[test]
fn last_index_tracks_top() {
    let mut v = CellVec::<u32>::new(4);
    assert_eq!(v.last_index(), None);
    v.push(7).unwrap();
    assert_eq!(v.last_index(), Some(0));
    v.push(8).unwrap();
    assert_eq!(v.last_index(), Some(1));
    v.pop();
    assert_eq!(v.last_index(), Some(0));
}

#[test]
fn get_and_index() {
    let mut v = CellVec::<u32>::new(4);
    v.push(5).unwrap();
    v.push(6).unwrap();
    assert_eq!(v.get(0), Some(5));
    assert_eq!(v.get(1), Some(6));
    assert_eq!(v.get(2), None);
    assert_eq!(v.index(1), 6);
    assert_eq!(v.as_slice(), &[5, 6]);
}

#[test]
fn truncate_and_clear_fast() {
    let mut v = CellVec::<u32>::new(5);
    for x in [1, 2, 3, 4] {
        v.push(x).unwrap();
    }
    v.truncate(2);
    assert_eq!(v.as_slice(), &[1, 2]);
    v.truncate(9);
    assert_eq!(v.as_slice(), &[1, 2]);
    v.clear_fast();
    assert_eq!(v.len(), 0);
    assert_eq!(v.capacity(), 5);
}

#[test]
fn reallocate_changes_capacity() {
    let mut v = CellVec::<u32>::new(2);
    v.push(1).unwrap();
    v.push(2).unwrap();
    v.push(3).expect_err("full at the old capacity");
    v.reallocate(4);
    assert_eq!(v.capacity(), 4);
    assert_eq!(v.as_slice(), &[1, 2]);
    v.push(3).expect("room after growing");
    v.reallocate(1);
    assert_eq!(v.capacity(), 1);
    assert_eq!(v.as_slice(), &[1]);
}
