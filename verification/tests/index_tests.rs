use fdedup::hashing::digest_of_bytes;
use fdedup::index::build_index;
use fdedup::index::Bucket;
use fdedup::index::ResultIndex;

fn groups_as_sorted_pairs(groups: Vec<Bucket>) -> Vec<(Vec<u8>, Vec<Vec<u8>>)> {
    let mut out: Vec<(Vec<u8>, Vec<Vec<u8>>)> = groups
        .into_iter()
        .map(|b| {
            let mut paths = b.paths;
            paths.sort();
            (b.digest, paths)
        })
        .collect();
    out.sort();
    out
}

#[test]
fn identical_content_lands_in_one_group() {
    let d = digest_of_bytes(b"same content");
    let other = digest_of_bytes(b"other content");
    let pairs = vec![
        (d.clone(), b"/a/x".to_vec()),
        (other.clone(), b"/a/y".to_vec()),
        (d.clone(), b"/a/z".to_vec()),
    ];
    let index = build_index(&pairs);
    let groups = groups_as_sorted_pairs(index.into_duplicate_groups());
    assert_eq!(groups.len(), 1);
    assert_eq!(groups[0].0, d);
    assert_eq!(groups[0].1, vec![b"/a/x".to_vec(), b"/a/z".to_vec()]);
}

#[test]
fn differing_content_lands_in_different_groups() {
    let d1 = digest_of_bytes(b"first");
    let d2 = digest_of_bytes(b"second");
    assert_ne!(d1, d2);
    let pairs = vec![
        (d1.clone(), b"/p".to_vec()),
        (d1.clone(), b"/q".to_vec()),
        (d2.clone(), b"/r".to_vec()),
        (d2.clone(), b"/s".to_vec()),
    ];
    let groups = groups_as_sorted_pairs(build_index(&pairs).into_duplicate_groups());
    assert_eq!(groups.len(), 2);
    assert!(groups.iter().any(|(d, ps)| *d == d1
        && *ps == vec![b"/p".to_vec(), b"/q".to_vec()]));
    assert!(groups.iter().any(|(d, ps)| *d == d2
        && *ps == vec![b"/r".to_vec(), b"/s".to_vec()]));
}

#[test]
fn a_group_of_one_is_not_a_duplicate() {
    let pairs = vec![(digest_of_bytes(b"alone"), b"/only".to_vec())];
    let groups = build_index(&pairs).into_duplicate_groups();
    assert!(groups.is_empty());
}

#[test]
fn an_empty_index_yields_zero_groups() {
    let index = ResultIndex::new();
    assert!(index.into_duplicate_groups().is_empty());
}

#[test]
fn recording_the_same_fact_twice_adds_nothing() {
    let d = digest_of_bytes(b"dup fact");
    let mut index = ResultIndex::new();
    index.insert(d.clone(), b"/same/path".to_vec());
    index.insert(d.clone(), b"/same/path".to_vec());
    // One distinct path under the digest: not a duplicate group.
    assert!(index.into_duplicate_groups().is_empty());
}

#[test]
fn insertion_order_does_not_change_the_grouping() {
    let d1 = digest_of_bytes(b"content one");
    let d2 = digest_of_bytes(b"content two");
    let pairs = vec![
        (d1.clone(), b"/a".to_vec()),
        (d2.clone(), b"/b".to_vec()),
        (d1.clone(), b"/c".to_vec()),
        (d2.clone(), b"/d".to_vec()),
        (d1.clone(), b"/e".to_vec()),
    ];
    let mut reversed = pairs.clone();
    reversed.reverse();
    let g1 = groups_as_sorted_pairs(build_index(&pairs).into_duplicate_groups());
    let g2 = groups_as_sorted_pairs(build_index(&reversed).into_duplicate_groups());
    assert_eq!(g1, g2);
}

#[test]
fn scanning_twice_groups_identically() {
    // The same facts discovered a second time, as by a rerun over an
    // unmodified tree, give the identical digest-to-path-set grouping.
    let d = digest_of_bytes(b"stable content");
    let pairs = vec![
        (d.clone(), b"/run/x".to_vec()),
        (d.clone(), b"/run/y".to_vec()),
    ];
    let g1 = groups_as_sorted_pairs(build_index(&pairs).into_duplicate_groups());
    let g2 = groups_as_sorted_pairs(build_index(&pairs).into_duplicate_groups());
    assert_eq!(g1, g2);
}
