use rent_vec::RentVec;

#[test]
fn lease_reads_and_writes_its_value() {
    let vec = RentVec::new();
    let mut lease = vec.push(1u32).unwrap();
    let mut g = lease.guard().unwrap();
    assert_eq!(*g.get(), 1);
    assert_eq!(g.set(2), 1);
    assert_eq!(*g.get(), 2);
    g.release();
    let g = lease.guard().unwrap();
    assert_eq!(*g.get(), 2);
    g.release();
}

#[test]
fn every_lease_resolves_to_its_value() {
    let vec = RentVec::new();
    let mut leases: Vec<_> = (0..50u32).map(|v| vec.push(v * 3).unwrap()).collect();
    for (k, lease) in leases.iter_mut().enumerate() {
        let g = lease.guard().unwrap();
        assert_eq!(*g.get(), k as u32 * 3);
        g.release();
    }
}

#[test]
fn stability_under_churn() {
    let vec = RentVec::new();
    let mut a = vec.push('A').unwrap();
    let b = vec.push('B').unwrap();
    let mut c = vec.push('C').unwrap();
    assert_eq!((a.entry(), b.entry(), c.entry()), (0, 1, 2));
    b.remove();
    let g = a.guard().unwrap();
    assert_eq!(*g.get(), 'A');
    g.release();
    let g = c.guard().unwrap();
    assert_eq!(*g.get(), 'C');
    g.release();
    assert_eq!(c.entry(), 1);
}

#[test]
fn concrete_scenario() {
    let vec = RentVec::new();
    let mut leases: Vec<_> = (10u32..20).map(|v| vec.push(v).unwrap()).collect();
    for (k, l) in leases.iter().enumerate() {
        assert_eq!(l.entry(), k);
    }
    let mut last = leases.pop().unwrap();
    let third = leases.remove(3);
    third.remove();
    assert_eq!(last.entry(), 9);
    let g = last.guard().unwrap();
    assert_eq!(*g.get(), 19);
    g.release();
    assert_eq!(last.entry(), 3);
    let g = vec.guard();
    let mut it = g.iter();
    let mut seen = Vec::new();
    while let Some(v) = it.next() {
        seen.push(*v);
    }
    g.release();
    assert_eq!(seen, vec![10, 11, 12, 19, 14, 15, 16, 17, 18]);
}

#[test]
fn twice_relocated_value_resolves_once() {
    let vec = RentVec::new();
    let mut l: Vec<_> = [1u32, 2, 3, 4, 5].iter().map(|v| vec.push(*v).unwrap()).collect();
    let mut e = l.pop().unwrap();
    let d = l.pop().unwrap();
    let c = l.pop().unwrap();
    let b = l.pop().unwrap();
    let a = l.pop().unwrap();
    b.remove();
    d.remove();
    c.remove();
    a.remove();
    assert_eq!(e.entry(), 4);
    let g = e.guard().unwrap();
    assert_eq!(*g.get(), 5);
    g.release();
    assert_eq!(e.entry(), 0);
    let g = e.guard().unwrap();
    assert_eq!(*g.get(), 5);
    g.release();
}

#[test]
fn shrink_keeps_leases() {
    let vec = RentVec::new();
    let mut l: Vec<_> = (0u32..5).map(|v| vec.push(v + 100).unwrap()).collect();
    l.pop().unwrap().remove();
    l.pop().unwrap().remove();
    l.pop().unwrap().remove();
    vec.shrink();
    for (k, lease) in l.iter_mut().enumerate() {
        let g = lease.guard().unwrap();
        assert_eq!(*g.get(), k as u32 + 100);
        g.release();
    }
    // the freed slots are gone: a new value lands at index 2
    let fresh = vec.push(7).unwrap();
    assert_eq!(fresh.entry(), 2);
}

#[test]
fn iter_mut_replaces_values() {
    let vec = RentVec::new();
    let mut l: Vec<_> = (1u32..5).map(|v| vec.push(v).unwrap()).collect();
    let mut g = vec.guard();
    {
        let mut it = g.iter_mut();
        assert_eq!(it.replace(0), None);
        loop {
            let v = match it.next() {
                Some(v) => *v,
                None => break,
            };
            assert_eq!(it.replace(v * 10), Some(v));
        }
    }
    g.release();
    for (k, lease) in l.iter_mut().enumerate() {
        let g = lease.guard().unwrap();
        assert_eq!(*g.get(), (k as u32 + 1) * 10);
        g.release();
    }
}

#[test]
fn removed_slot_is_reused() {
    let vec = RentVec::new();
    let a = vec.push(1u32).unwrap();
    let _b = vec.push(2u32).unwrap();
    let _c = vec.push(3u32).unwrap();
    a.remove();
    // [3, 2, Moved(0)]: the push skips the redirect and appends
    let d = vec.push(4u32).unwrap();
    assert_eq!(d.entry(), 3);
}

#[test]
fn iteration_sees_a_consistent_snapshot() {
    let vec = RentVec::new();
    for v in 0u32..4 {
        vec.push(v).unwrap();
    }
    let g = vec.guard();
    let mut a = g.iter();
    let mut b = g.iter();
    let mut left = Vec::new();
    while let Some(v) = a.next() {
        left.push(*v);
    }
    let mut right = Vec::new();
    while let Some(v) = b.next() {
        right.push(*v);
    }
    g.release();
    assert_eq!(left, right);
    assert_eq!(left, vec![0, 1, 2, 3]);
}
