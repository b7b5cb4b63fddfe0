use notus::datastore::{KeysDir, KeyDirEntry, IndexState};
use notus::keybytes::KeyBound;
use notus::file_ops::{
    create_new_file_pair, fetch_file_pairs, parse_file_name, render_file_name, FilePair, Volume,
};

#[test]
fn test_create_file_pairs() {
    let mut vol = Volume::new();
    create_new_file_pair(&mut vol).unwrap();
    create_new_file_pair(&mut vol).unwrap();
    create_new_file_pair(&mut vol).unwrap();

    let mut names = vec![];
    for pair in &vol.segments {
        names.push(pair.data_file_path());
        names.push(pair.hint_file_path());
    }
    let b = fetch_file_pairs(&names);
    println!("{:#?}", b);
    assert_eq!(b.len(), 3);
    for (i, group) in b.iter().enumerate() {
        assert_eq!(group.file_id, vol.segments[i].file_id());
        assert!(group.has_data);
        assert!(group.has_hint);
    }
}

#[test]
fn file_names_render_and_parse() {
    assert_eq!(render_file_name(1234, true), b"1234.data".to_vec());
    assert_eq!(render_file_name(0, false), b"0.hint".to_vec());
    assert_eq!(parse_file_name(&b"1234.data".to_vec()), Some((1234, true)));
    assert_eq!(parse_file_name(&b"0.hint".to_vec()), Some((0, false)));
    assert_eq!(parse_file_name(&b"0123.data".to_vec()), None);
    assert_eq!(parse_file_name(&b"12x4.data".to_vec()), None);
    assert_eq!(parse_file_name(&b"junk.txt".to_vec()), None);
    assert_eq!(parse_file_name(&b".data".to_vec()), None);

    let pair = FilePair::new(789);
    assert_eq!(pair.data_file_path(), b"789.data".to_vec());
    assert_eq!(pair.hint_file_path(), b"789.hint".to_vec());
}

#[test]
fn listing_pairs_tolerates_odd_files() {
    let names = vec![
        b"20.data".to_vec(),
        b"10.data".to_vec(),
        b"10.hint".to_vec(),
        b"5.hint".to_vec(),
        b"notes.txt".to_vec(),
    ];
    let groups = fetch_file_pairs(&names);
    assert_eq!(groups.len(), 3);
    assert_eq!(groups[0].file_id, 5);
    assert!(!groups[0].has_data);
    assert!(groups[0].has_hint);
    assert_eq!(groups[1].file_id, 10);
    assert!(groups[1].has_data && groups[1].has_hint);
    assert_eq!(groups[2].file_id, 20);
    assert!(groups[2].has_data && !groups[2].has_hint);
}

#[test]
fn keysdir_range_and_prefix() {
    let mut dir = KeysDir::new();
    let entry = IndexState::Persisted(KeyDirEntry::new(1, 1, 1, 0));
    dir.insert(vec![1], entry);
    dir.insert(vec![1, 2], entry);
    dir.insert(vec![2], entry);
    dir.insert(vec![3], entry);
    assert_eq!(dir.len(), 4);
    assert_eq!(dir.keys(), vec![vec![1], vec![1, 2], vec![2], vec![3]]);

    let within = dir.range(&KeyBound::Included(vec![1]), &KeyBound::Included(vec![2]));
    assert_eq!(within, vec![vec![1], vec![1, 2], vec![2]]);

    let from_two = dir.range(&KeyBound::Excluded(vec![1, 2]), &KeyBound::Unbounded);
    assert_eq!(from_two, vec![vec![2], vec![3]]);

    let ones = dir.prefix(&vec![1]);
    assert_eq!(ones, vec![vec![1], vec![1, 2]]);

    assert!(dir.contains(&vec![2]));
    dir.remove(&vec![2]);
    assert!(!dir.contains(&vec![2]));
    dir.clear();
    assert!(dir.keys().is_empty());
}
