use notus::datastore::DataStore;
use notus::file_ops::{FilePair, Volume};
use notus::errors::NotusError;

#[test]
fn put_flush_reopen_reads_back() {
    let mut ds = DataStore::open(Volume::new()).unwrap();
    ds.put(vec![b'a'], vec![1]).unwrap();
    ds.put(vec![b'b'], vec![2]).unwrap();
    ds.flush().unwrap();
    let volume = ds.close().unwrap();

    let ds = DataStore::open(volume).unwrap();
    assert_eq!(ds.get(&vec![b'a']).unwrap(), Some(vec![1]));
    assert_eq!(ds.get(&vec![b'b']).unwrap(), Some(vec![2]));
    assert_eq!(ds.keys(), vec![vec![b'a'], vec![b'b']]);
}

#[test]
fn overwrite_wins_across_reopen() {
    let mut ds = DataStore::open(Volume::new()).unwrap();
    ds.put(vec![b'a'], vec![1]).unwrap();
    ds.put(vec![b'a'], vec![2]).unwrap();
    assert_eq!(ds.get(&vec![b'a']).unwrap(), Some(vec![2]));
    let volume = ds.close().unwrap();

    let ds = DataStore::open(volume).unwrap();
    assert_eq!(ds.get(&vec![b'a']).unwrap(), Some(vec![2]));
}

#[test]
fn delete_survives_reopen() {
    let mut ds = DataStore::open(Volume::new()).unwrap();
    ds.put(vec![b'a'], vec![1]).unwrap();
    ds.flush().unwrap();
    ds.delete(&vec![b'a']).unwrap();
    assert_eq!(ds.get(&vec![b'a']).unwrap(), None);
    let volume = ds.close().unwrap();

    let ds = DataStore::open(volume).unwrap();
    assert_eq!(ds.get(&vec![b'a']).unwrap(), None);
    assert!(ds.keys().is_empty());
}

#[test]
fn merge_shrinks_disk_and_keeps_state() {
    // three segments' worth of data: three sessions, each closed
    let mut volume = Volume::new();
    for round in 0..3u8 {
        let mut ds = DataStore::open(volume).unwrap();
        for i in 0..20u8 {
            ds.put(vec![round, i], vec![i; 64]).unwrap();
        }
        volume = ds.close().unwrap();
    }
    // overwrite half the keys
    {
        let mut ds = DataStore::open(volume).unwrap();
        for round in 0..3u8 {
            for i in 0..10u8 {
                ds.put(vec![round, i], vec![i.wrapping_add(1); 64]).unwrap();
            }
        }
        volume = ds.close().unwrap();
    }
    let size_before = volume.total_size();
    let mut ds = DataStore::open(volume).unwrap();
    let keys_before = ds.keys();
    ds.merge().unwrap();
    let keys_after = ds.keys();
    assert_eq!(keys_before, keys_after);
    for round in 0..3u8 {
        for i in 0..10u8 {
            assert_eq!(ds.get(&vec![round, i]).unwrap(), Some(vec![i.wrapping_add(1); 64]));
        }
        for i in 10..20u8 {
            assert_eq!(ds.get(&vec![round, i]).unwrap(), Some(vec![i; 64]));
        }
    }
    let volume = ds.close().unwrap();
    let size_after = volume.total_size();
    assert!(size_after < size_before);
}

#[test]
fn reopen_last_write_wins_and_sorted_keys() {
    let mut ds = DataStore::open(Volume::new()).unwrap();
    ds.put(vec![1, 2, 3], vec![4, 5, 6]).unwrap();
    ds.put(vec![3, 1, 2], vec![12, 32, 1]).unwrap();
    ds.put(vec![3, 1, 4], vec![121, 200, 187]).unwrap();
    ds.put(vec![1, 2, 3], vec![3, 3, 3]).unwrap();
    let volume = ds.close().unwrap();

    let ds = DataStore::open(volume).unwrap();
    assert_eq!(ds.get(&vec![1, 2, 3]).unwrap(), Some(vec![3, 3, 3]));
    assert_eq!(ds.keys(), vec![vec![1, 2, 3], vec![3, 1, 2], vec![3, 1, 4]]);
}

#[test]
fn corrupt_byte_detected_others_unharmed() {
    let mut ds = DataStore::open(Volume::new()).unwrap();
    ds.put(vec![1], vec![10]).unwrap();
    ds.put(vec![2], vec![20]).unwrap();
    ds.flush().unwrap();
    let volume = ds.close().unwrap();

    // flip the last data byte: it sits in the record of the later key
    let mut tampered = Volume::new();
    for pair in &volume.segments {
        let mut data = pair.data().clone();
        let hint = pair.hint().clone();
        if !data.is_empty() {
            let last = data.len() - 1;
            data[last] ^= 0xFF;
        }
        tampered.add_segment(FilePair::from_bytes(pair.file_id(), data, hint));
    }

    let ds = DataStore::open(tampered).unwrap();
    assert_eq!(ds.get(&vec![1]).unwrap(), Some(vec![10]));
    assert_eq!(ds.get(&vec![2]), Err(NotusError::CorruptValue));
}

#[test]
fn put_twice_and_delete_twice_are_idempotent() {
    let mut ds = DataStore::open(Volume::new()).unwrap();
    ds.put(vec![9], vec![1, 1]).unwrap();
    ds.put(vec![9], vec![1, 1]).unwrap();
    assert_eq!(ds.get(&vec![9]).unwrap(), Some(vec![1, 1]));
    assert_eq!(ds.keys(), vec![vec![9]]);
    ds.delete(&vec![9]).unwrap();
    ds.delete(&vec![9]).unwrap();
    assert_eq!(ds.get(&vec![9]).unwrap(), None);
    assert!(ds.keys().is_empty());
    let volume = ds.close().unwrap();

    let ds = DataStore::open(volume).unwrap();
    assert_eq!(ds.get(&vec![9]).unwrap(), None);
    assert!(ds.keys().is_empty());
}

#[test]
fn missing_hint_file_is_recovered_from_data() {
    let mut ds = DataStore::open(Volume::new()).unwrap();
    ds.put(vec![4], vec![40]).unwrap();
    ds.put(vec![5], vec![50]).unwrap();
    ds.flush().unwrap();
    let volume = ds.close().unwrap();

    // drop every hint file: only the data files survive
    let mut bare = Volume::new();
    for pair in &volume.segments {
        bare.add_segment(FilePair::from_bytes(pair.file_id(), pair.data().clone(), Vec::new()));
    }

    let ds = DataStore::open(bare).unwrap();
    assert_eq!(ds.get(&vec![4]).unwrap(), Some(vec![40]));
    assert_eq!(ds.get(&vec![5]).unwrap(), Some(vec![50]));
    assert_eq!(ds.keys(), vec![vec![4], vec![5]]);
}
