use notus::memtable::MemTable;

#[test]
fn test_memtable() {
    let mut memtable = MemTable::new();

    for i in 0..100_u32 {
        memtable.insert(&i.to_be_bytes().to_vec(), &i.to_be_bytes().to_vec())
    }

    for i in 0..100_u32 {
        let entry = memtable.get(&i.to_be_bytes().to_vec()).unwrap();
        let mut raw_value: [u8; 4] = [0; 4];
        raw_value.copy_from_slice(entry.value.as_ref().unwrap());
        let j = u32::from_be_bytes(raw_value);
        assert_eq!(i, j)
    }
    println!("{}", memtable.size());

    for i in 0..50_u32 {
        memtable.remove(&i.to_be_bytes().to_vec())
    }

    println!("{}", memtable.size())
}

#[test]
fn memtable_replaces_and_accounts() {
    let mut m = MemTable::new();
    assert_eq!(m.size(), 0);
    m.insert(&vec![1, 2], &vec![9, 9, 9]);
    // key (2) + value (3) + timestamp (8) + tombstone (1)
    assert_eq!(m.size(), 14);
    m.insert(&vec![1, 2], &vec![7]);
    assert_eq!(m.size(), 12);
    m.remove(&vec![1, 2]);
    assert_eq!(m.size(), 11);
    let entry = m.get(&vec![1, 2]).unwrap();
    assert!(entry.tombstone);
    assert!(entry.value.is_none());
    m.clear();
    assert_eq!(m.size(), 0);
    assert!(m.get(&vec![1, 2]).is_none());
}
