use per::RadixVec;

fn build<const N: usize>(values: &[i64]) -> RadixVec<i64, N> {
    let mut v = RadixVec::<i64, N>::new();
    for x in values {
        v = v.push(*x);
    }
    v
}

fn contents<const N: usize>(v: &RadixVec<i64, N>) -> Vec<i64> {
    let mut out = Vec::new();
    let mut it = v.iter();
    while let Some(x) = it.next() {
        out.push(*x);
    }
    out
}

#[test]
fn create_vec() {
    let _ = RadixVec::<isize, 32>::new();
}

#[test]
fn push() {
    let xs = RadixVec::<isize, 32>::new();

    xs.push(42);
}

#[test]
fn scenario_with_two_way_branching() {
    let v = build::<2>(&[10, 20, 30, 40, 50]);
    assert_eq!(v.len(), 5);
    for (i, x) in [10, 20, 30, 40, 50].iter().enumerate() {
        assert_eq!(v.get(i), Some(x));
    }
    assert_eq!(v.get(5), None);
    let w = v.set(2, 99).unwrap();
    assert_eq!(w.get(2), Some(&99));
    assert_eq!(v.get(2), Some(&30));
}

#[test]
fn empty_boundary() {
    let v = RadixVec::<i64, 4>::new();
    assert_eq!(v.len(), 0);
    assert!(v.is_empty());
    assert_eq!(v.get(0), None);
    assert!(v.pop().is_none());
    assert!(v.set(0, 1).is_none());
    assert!(v.iter().next().is_none());
}

#[test]
fn index_round_trip_many_sizes() {
    let values: Vec<i64> = (0..300).map(|x| x * 7 - 11).collect();
    let v2 = build::<2>(&values);
    let v3 = build::<3>(&values);
    let v32 = build::<32>(&values);
    for (i, x) in values.iter().enumerate() {
        assert_eq!(v2.get(i), Some(x));
        assert_eq!(v3.get(i), Some(x));
        assert_eq!(v32.get(i), Some(x));
    }
    assert_eq!(v2.get(300), None);
    assert_eq!(v3.get(301), None);
    assert_eq!(v32.get(usize::MAX), None);
    assert_eq!(contents(&v3), values);
}

#[test]
fn full_leaf_then_one_more() {
    let v = build::<4>(&[1, 2, 3, 4]);
    let w = v.push(5);
    assert_eq!(w.len(), 5);
    assert_eq!(contents(&w), vec![1, 2, 3, 4, 5]);
    assert_eq!(contents(&v), vec![1, 2, 3, 4]);
    let full = build::<3>(&[1, 2, 3, 4, 5, 6, 7, 8, 9]);
    let grown = full.push(10);
    assert_eq!(contents(&grown), (1..=10).collect::<Vec<i64>>());
}

#[test]
fn set_round_trip_keeps_others() {
    let values: Vec<i64> = (0..50).collect();
    let v = build::<3>(&values);
    for i in 0..50 {
        let w = v.set(i, -1).unwrap();
        assert_eq!(w.len(), 50);
        for j in 0..50 {
            let expected = if j == i { -1 } else { j as i64 };
            assert_eq!(w.get(j), Some(&expected));
        }
    }
    assert!(v.set(50, 0).is_none());
    assert_eq!(contents(&v), values);
}

#[test]
fn pop_then_push_restores() {
    let values: Vec<i64> = (0..40).collect();
    let v = build::<2>(&values);
    let (w, x) = v.pop().unwrap();
    assert_eq!(*x, 39);
    assert_eq!(w.len(), 39);
    let u = w.push(*x);
    assert_eq!(contents(&u), contents(&v));
}

#[test]
fn pop_down_to_empty() {
    let values: Vec<i64> = (0..20).collect();
    let mut v = build::<2>(&values);
    let original = v.clone();
    for expected in (0..20).rev() {
        let (w, x) = {
            let (w, x) = v.pop().unwrap();
            (w, *x)
        };
        assert_eq!(x, expected);
        assert_eq!(w.len(), expected as usize);
        assert_eq!(contents(&w), (0..expected).collect::<Vec<i64>>());
        v = w;
    }
    assert!(v.is_empty());
    assert!(v.pop().is_none());
    assert_eq!(contents(&original), values);
}

#[test]
fn retained_version_is_unchanged() {
    let base = build::<2>(&[1, 2, 3, 4, 5, 6, 7]);
    let mut derived = Vec::new();
    let mut current = base.clone();
    for i in 0..100 {
        current = current.push(100 + i);
        derived.push(current.clone());
        derived.push(base.set((i % 7) as usize, -i).unwrap());
        derived.push(base.pop().unwrap().0);
    }
    assert_eq!(base.len(), 7);
    assert_eq!(contents(&base), vec![1, 2, 3, 4, 5, 6, 7]);
    assert_eq!(derived[297].len(), 107);
}

#[test]
fn length_changes() {
    let v = build::<5>(&[3, 1, 4]);
    assert_eq!(v.push(1).len(), 4);
    assert_eq!(v.pop().unwrap().0.len(), 2);
    assert_eq!(v.set(1, 9).unwrap().len(), 3);
}
