use notus::nutos::Notus;
use notus::keybytes::KeyBound;
use notus::file_ops::Volume;

const N_PER_THREAD: usize = 100;

#[test]
fn monotonic_inserts() {
    let mut db = Notus::temp(Volume::new()).unwrap();

    for len in [1_usize, 16, 32, 1024].iter() {
        for i in 0_usize..*len {
            let mut k = vec![];
            for c in 0_usize..i {
                k.push((c % 256) as u8);
            }
            db.put(k, vec![]).unwrap();
        }

        let mut count = 0;
        let mut it = db.iter();
        while let Some(_) = it.next() {
            count += 1;
        }
        assert_eq!(count, *len as usize);

        let mut count2 = 0;
        let mut it = db.iter();
        while let Some(_) = it.next_back() {
            count2 += 1;
        }
        assert_eq!(count2, *len as usize);

        db.clear().unwrap();
    }

    for len in [1_usize, 16, 32, 1024].iter() {
        for i in (0_usize..*len).rev() {
            let mut k = vec![];
            for c in (0_usize..i).rev() {
                k.push((c % 256) as u8);
            }
            db.put(k, vec![]).unwrap();
        }

        let mut count3 = 0;
        let mut it = db.iter();
        while let Some(_) = it.next() {
            count3 += 1;
        }
        assert_eq!(count3, *len as usize);

        let mut count4 = 0;
        let mut it = db.iter();
        while let Some(_) = it.next_back() {
            count4 += 1;
        }
        assert_eq!(count4, *len as usize);

        db.clear().unwrap();
    }
}

#[test]
fn tree_big_keys_iterator() {
    fn kv(i: usize) -> Vec<u8> {
        let k = [(i >> 16) as u8, (i >> 8) as u8, i as u8];

        let mut base = vec![0; u8::MAX as usize];
        base.extend_from_slice(&k);
        base
    }

    let mut t = Notus::temp(Volume::new()).unwrap();
    for i in 0..N_PER_THREAD {
        let k = kv(i);
        t.put(k.clone(), k).unwrap();
    }

    let mut it = t.iter();
    let mut i = 0;
    while let Some((k, v)) = it.next() {
        let should_be = kv(i);
        assert_eq!(should_be, k);
        assert_eq!(should_be, v);
        i += 1;
    }
    assert_eq!(i, N_PER_THREAD);

    let mut it = t.iter();
    let mut i = 0;
    while let Some((k, v)) = it.next() {
        let should_be = kv(i);
        assert_eq!(should_be, k);
        assert_eq!(should_be, v);
        i += 1;
    }

    let half_way = N_PER_THREAD / 2;
    let half_key = kv(half_way);
    let mut tree_scan = t.range(&KeyBound::Included(half_key.clone()), &KeyBound::Unbounded);
    let r1 = tree_scan.next().unwrap();
    assert_eq!((r1.0, r1.1), (half_key.clone(), half_key));

    let first_key = kv(0);
    let mut tree_scan = t.range(&KeyBound::Included(first_key.clone()), &KeyBound::Unbounded);
    let r2 = tree_scan.next().unwrap();
    assert_eq!((r2.0, r2.1), (first_key.clone(), first_key));

    let last_key = kv(N_PER_THREAD - 1);
    let mut tree_scan = t.range(&KeyBound::Included(last_key.clone()), &KeyBound::Unbounded);
    let r3 = tree_scan.next().unwrap();
    assert_eq!((r3.0, r3.1), (last_key.clone(), last_key));
    assert!(tree_scan.next().is_none());
}

#[test]
fn empty_key_is_guarded() {
    let mut db = Notus::open(Volume::new()).unwrap();
    assert_eq!(db.get(&vec![]).unwrap(), None);
    assert!(!db.contains(&vec![]).unwrap());
    db.delete(&vec![]).unwrap();
    db.put(vec![1], vec![2]).unwrap();
    assert!(db.contains(&vec![1]).unwrap());
    let volume = db.close().unwrap();
    assert!(!volume.locked);
}

#[test]
fn prefix_scan_in_order() {
    let mut db = Notus::open(Volume::new()).unwrap();
    db.put(vec![1], vec![0]).unwrap();
    db.put(vec![1, 2], vec![1]).unwrap();
    db.put(vec![1, 2, 3], vec![2]).unwrap();
    db.put(vec![2, 2], vec![3]).unwrap();
    let mut it = db.prefix(&vec![1]);
    let mut seen = vec![];
    while let Some((k, _)) = it.next() {
        seen.push(k);
    }
    assert_eq!(seen, vec![vec![1], vec![1, 2], vec![1, 2, 3]]);
}

#[test]
fn compact_keeps_every_reader_answer() {
    let mut db = Notus::open(Volume::new()).unwrap();
    db.put(vec![1], vec![10]).unwrap();
    db.put(vec![2], vec![20]).unwrap();
    db.flush().unwrap();
    db.delete(&vec![1]).unwrap();
    db.compact().unwrap();
    assert_eq!(db.get(&vec![1]).unwrap(), None);
    assert_eq!(db.get(&vec![2]).unwrap(), Some(vec![20]));
}
