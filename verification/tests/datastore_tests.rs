use notus::datastore::DataStore;
use notus::file_ops::Volume;

#[test]
fn test_data_store() {
    let mut ds = DataStore::open(Volume::new()).unwrap();
    ds.put(vec![1, 2, 3], vec![4, 5, 6]).unwrap();
    println!("{:#?}", ds.get(&vec![1, 2, 3]).unwrap());
}

#[test]
fn test_data_reopens() {
    let volume;
    {
        let mut ds = DataStore::open(Volume::new()).unwrap();
        ds.put(vec![1, 2, 3], vec![4, 5, 6]).unwrap();
        ds.put(vec![3, 1, 2], vec![12, 32, 1]).unwrap();
        ds.put(vec![3, 1, 4], vec![121, 200, 187]).unwrap();
        ds.put(vec![1, 2, 3], vec![3, 3, 3]).unwrap();
        println!("{:#?}", ds.keys());
        volume = ds.close().unwrap();
    }

    let volume2;
    {
        let mut ds = DataStore::open(volume).unwrap();
        assert_eq!(ds.get(&vec![1, 2, 3]).unwrap(), Some(vec![3, 3, 3]));
        ds.put(vec![1, 2, 3], vec![9, 9, 6]).unwrap();
        ds.delete(&vec![3, 1, 2]).unwrap();
        println!("{:?}", ds.get(&vec![1, 2, 3]));
        println!("{:#?}", ds.keys());
        volume2 = ds.close().unwrap();
    }

    {
        let mut ds = DataStore::open(volume2).unwrap();
        assert_eq!(ds.get(&vec![1, 2, 3]).unwrap(), Some(vec![9, 9, 6]));
        assert_eq!(ds.get(&vec![3, 1, 2]).unwrap(), None);
        ds.delete(&vec![1, 2, 3]).unwrap();
        println!("{:#?}", ds.keys());
        assert_eq!(ds.keys(), vec![vec![3, 1, 4]]);
    }
}

#[test]
fn test_data_merge_store() {
    let mut volume;
    {
        let mut ds = DataStore::open(Volume::new()).unwrap();
        ds.put(vec![1, 2, 3], vec![4, 5, 6]).unwrap();
        ds.put(vec![3, 1, 2], vec![12, 32, 1]).unwrap();
        ds.put(vec![3, 1, 4], vec![121, 200, 187]).unwrap();
        ds.put(vec![1, 2, 3], vec![3, 3, 3]).unwrap();
        volume = ds.close().unwrap();
    }

    {
        let mut ds = DataStore::open(volume).unwrap();
        ds.put(vec![1, 2, 3], vec![4, 4, 4]).unwrap();
        ds.put(vec![3, 1, 2], vec![12, 32, 1]).unwrap();
        ds.put(vec![3, 1, 4], vec![12, 54, 0]).unwrap();
        ds.put(vec![8, 27, 34], vec![3, 3, 3]).unwrap();
        volume = ds.close().unwrap();
    }

    let keys_before_merge;
    let keys_after_merge;

    {
        let mut ds = DataStore::open(volume).unwrap();
        ds.put(vec![1, 2, 3], vec![9, 9, 6]).unwrap();
        ds.delete(&vec![3, 1, 2]).unwrap();
        keys_before_merge = ds.keys();
        volume = ds.close().unwrap();
    }

    {
        let mut ds = DataStore::open(volume).unwrap();
        ds.merge().unwrap();
        keys_after_merge = ds.keys();
    }

    assert_eq!(keys_before_merge, keys_after_merge);
}

#[test]
fn test_reopen_without_closing_error() {
    let mut ds = DataStore::open(Volume::new()).unwrap();
    ds.put(vec![1, 2, 3], vec![4, 5, 6]).unwrap();
    ds.put(vec![3, 1, 2], vec![12, 32, 1]).unwrap();
    ds.put(vec![3, 1, 4], vec![121, 200, 187]).unwrap();
    ds.put(vec![1, 2, 3], vec![3, 3, 3]).unwrap();
    println!("{:#?}", ds.keys());

    // the directory is still locked by the store above
    let mut second = Volume::new();
    second.locked = true;
    let open_result = DataStore::open(second);
    match open_result {
        Err(e) => assert_eq!(e, notus::errors::NotusError::LockFailed),
        Ok(_) => panic!("open should have failed on a locked directory"),
    }
}

#[test]
fn contains_and_clear() {
    let mut ds = DataStore::open(Volume::new()).unwrap();
    ds.put(vec![5], vec![50]).unwrap();
    ds.put(vec![6], vec![60]).unwrap();
    assert!(ds.contains(&vec![5]).unwrap());
    assert!(!ds.contains(&vec![7]).unwrap());
    ds.delete(&vec![5]).unwrap();
    assert!(!ds.contains(&vec![5]).unwrap());
    ds.clear().unwrap();
    assert!(ds.keys().is_empty());
    assert_eq!(ds.get(&vec![6]).unwrap(), None);
}
