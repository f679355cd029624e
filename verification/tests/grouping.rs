use wallpicker::digest::{digest_bytes, Digest};
use wallpicker::grouping::{
    duplicate_groups, group_duplicates, keys_match, session_groups, worth_hashing, DedupeKey,
};

fn key(content: &[u8]) -> Option<DedupeKey> {
    Some(DedupeKey { length: content.len() as u64, digest: digest_bytes(content) })
}

fn members(keys: &Vec<Option<DedupeKey>>) -> Vec<Vec<usize>> {
    group_duplicates(keys).into_iter().map(|g| g.members).collect()
}

#[test]
fn two_equal_files_and_one_other() {
    // A and B hold the same ten bytes, C holds twenty others.
    let a = key(b"xxxxxxxxxx");
    let b = key(b"xxxxxxxxxx");
    let c = key(b"yyyyyyyyyyyyyyyyyyyy");
    let keys = vec![a, b, c];
    let groups = group_duplicates(&keys);
    assert_eq!(groups.len(), 1);
    assert_eq!(groups[0].members, vec![0, 1]);
    assert_eq!(groups[0].key.length, 10);
    assert!(groups[0].key.digest.same(&digest_bytes(b"xxxxxxxxxx")));
}

#[test]
fn equal_length_but_other_content_is_no_duplicate() {
    let keys = vec![key(b"aaaa"), key(b"bbbb"), key(b"cccc")];
    assert_eq!(members(&keys), Vec::<Vec<usize>>::new());
}

#[test]
fn equal_digest_but_other_length_is_no_duplicate() {
    let d: Digest = digest_bytes(b"same");
    let keys = vec![
        Some(DedupeKey { length: 4, digest: d }),
        Some(DedupeKey { length: 5, digest: d }),
    ];
    assert_eq!(members(&keys), Vec::<Vec<usize>>::new());
    assert!(!keys_match(&keys[0], &keys[1]));
    assert!(keys_match(&keys[0], &keys[0]));
    assert!(!keys_match(&keys[0], &None));
    assert!(!keys_match(&None, &None));
}

#[test]
fn groups_come_longest_files_first() {
    let keys = vec![
        key(b"aa"),
        key(b"bbbbbb"),
        key(b"aa"),
        key(b"cccc"),
        key(b"bbbbbb"),
        key(b"cccc"),
        key(b"aa"),
    ];
    assert_eq!(members(&keys), vec![vec![1, 4], vec![3, 5], vec![0, 2, 6]]);
    let lengths: Vec<u64> = group_duplicates(&keys).iter().map(|g| g.key.length).collect();
    assert_eq!(lengths, vec![6, 4, 2]);
}

#[test]
fn groups_of_one_length_come_in_the_order_of_their_first_members() {
    let keys = vec![key(b"bb"), key(b"aa"), key(b"cc"), key(b"aa"), key(b"cc"), key(b"bb")];
    assert_eq!(members(&keys), vec![vec![0, 5], vec![1, 3], vec![2, 4]]);
}

#[test]
fn a_file_that_could_not_be_hashed_is_in_no_group() {
    let keys = vec![key(b"aa"), None, key(b"aa"), None];
    assert_eq!(members(&keys), vec![vec![0, 2]]);
    assert_eq!(members(&vec![None, None]), Vec::<Vec<usize>>::new());
    assert_eq!(members(&Vec::new()), Vec::<Vec<usize>>::new());
}

#[test]
fn only_files_that_share_a_length_are_worth_hashing() {
    let lengths = vec![Some(10), Some(20), Some(10), None, Some(30), Some(20), None, Some(10)];
    assert_eq!(worth_hashing(&lengths), vec![0, 1, 2, 5, 7]);
    assert_eq!(worth_hashing(&vec![Some(1), Some(2)]), Vec::<usize>::new());
    assert_eq!(worth_hashing(&vec![None, None]), Vec::<usize>::new());
    assert_eq!(worth_hashing(&Vec::new()), Vec::<usize>::new());
}

#[test]
fn groups_of_paths_for_a_session() {
    let paths: Vec<String> = ["/a", "/b", "/c", "/d"].iter().map(|s| s.to_string()).collect();
    let keys = vec![key(b"xx"), key(b"yyyy"), key(b"xx"), key(b"yyyy")];
    let groups = group_duplicates(&keys);
    let for_session = session_groups(&paths, &groups);
    assert_eq!(for_session.len(), 2);
    assert_eq!(for_session[0].size, 4);
    assert_eq!(for_session[0].members, vec!["/b".to_string(), "/d".to_string()]);
    assert_eq!(for_session[1].size, 2);
    assert_eq!(for_session[1].members, vec!["/a".to_string(), "/c".to_string()]);
    let direct = duplicate_groups(&paths, &keys).unwrap();
    assert_eq!(direct.len(), 2);
    assert_eq!(direct[1].members, vec!["/a".to_string(), "/c".to_string()]);
    assert!(duplicate_groups(&paths, &vec![None]).is_none());
}
