use regrate::names::{
    chain, dir_message_bytes, hash_dir, orphans, DirFile, StoreDir, StoreListing,
    StoreNameIterator,
};
use regrate::paths::{name_to_path, regrate_path};
use regrate::types::RegrateError;

const FIRST: &str = "5kNMjf1tnaPFF2aVx3LYqqKgSaNibdhaHrEcyKU7uSXa";

fn file(relative: &str, contents: &[u8]) -> DirFile {
    DirFile {
        relative: relative.to_string(),
        size: contents.len() as u64,
        contents: contents.to_vec(),
    }
}

fn dir_for(name: &str, files: Vec<DirFile>) -> StoreDir {
    StoreDir { prefix: name[0..2].to_string(), rest: name[2..].to_string(), files }
}

fn parts(p: &regrate::paths::RepoPath) -> Vec<String> {
    p.parts.clone()
}

#[test]
fn first_hash_is_base58_sha256_of_the_genesis_text() {
    assert_eq!(StoreNameIterator::first_hash(), FIRST);
}

#[test]
fn hash_dir_mixes_in_names_sizes_and_contents() {
    let up = vec![file("up.sh", b"echo hi\n")];
    assert_eq!(hash_dir(FIRST, &up), "4MiLi3GHttj6aBeYiUGyKZ3UF71sMR1ygsvTvt29at81");
    let renamed = vec![file("renamed.sh", b"echo hi\n")];
    assert_eq!(hash_dir(FIRST, &renamed), "BJhr5dB5piMSUp3wwdyvugPzRBry7HHhcPnn8AbB5dqu");
    assert_eq!(hash_dir(FIRST, &vec![]), "2Q2p9rwhrmMrNwNFYYrFapXqwwa12knBk7Cr4s3DZ4br");
}

#[test]
fn dir_message_frames_each_file() {
    let files = vec![file("a", b"xy")];
    let msg = dir_message_bytes("S", &files);
    assert_eq!(msg, vec![b'S', b'a', 0, 2, 0, 0, 0, 0, 0, 0, 0, b'x', b'y']);
    // moving a byte from one file to the next changes the message
    let shifted = vec![file("a", b"x"), file("b", b"y")];
    let joined = vec![file("a", b"xy"), file("b", b"")];
    assert_ne!(dir_message_bytes("S", &shifted), dir_message_bytes("S", &joined));
}

#[test]
fn name_to_path_splits_after_two_bytes() {
    let p = name_to_path("abcdef");
    assert_eq!(parts(&p), vec!["store", "ab", "cdef"]);
    let p = name_to_path("éx");
    assert_eq!(parts(&p), vec!["store", "é", "x"]);
    assert_eq!(parts(&regrate_path("current", true).ok().unwrap()), vec!["current"]);
    assert!(matches!(regrate_path("current", false), Err(RegrateError::NotInitialized)));
}

#[test]
fn empty_store_has_no_migrations_and_reserves_the_first_name() {
    let store = StoreListing { dirs: vec![] };
    let (ms, pending, path) = chain(&store).ok().unwrap();
    assert!(ms.is_empty());
    assert_eq!(pending, FIRST);
    assert_eq!(parts(&path), vec!["store", &FIRST[0..2], &FIRST[2..]]);
}

#[test]
fn chain_follows_names_in_commit_order() {
    let a = "4MiLi3GHttj6aBeYiUGyKZ3UF71sMR1ygsvTvt29at81";
    let c = "HSYzv3HP56mZQa5kpB5apXQeHuku2xK4tEQVh4EcfrEa";
    let store = StoreListing {
        dirs: vec![
            dir_for(a, vec![file("up.sh", b"#!/bin/sh\necho second\n")]),
            dir_for(FIRST, vec![file("up.sh", b"echo hi\n")]),
        ],
    };
    let (ms, pending, _) = chain(&store).ok().unwrap();
    assert_eq!(ms.len(), 2);
    assert_eq!(ms[0].index, 0);
    assert_eq!(ms[0].name, FIRST);
    assert_eq!(ms[0].next_name, a);
    assert_eq!(ms[1].index, 1);
    assert_eq!(ms[1].name, a);
    assert_eq!(ms[1].next_name, c);
    assert_eq!(pending, c);
    assert_eq!(parts(&ms[1].next_path), vec!["store", &c[0..2], &c[2..]]);
    assert!(orphans(&store, &ms).is_empty());
}

#[test]
fn iterator_steps_through_the_store() {
    let store = StoreListing { dirs: vec![dir_for(FIRST, vec![file("up.sh", b"echo hi\n")])] };
    let mut it = StoreNameIterator::new();
    let m = it.next(&store).unwrap();
    assert_eq!(m.name, FIRST);
    assert_eq!(m.index, 0);
    assert!(it.next(&store).is_none());
    let (pending, _) = it.pending();
    assert_eq!(pending, m.next_name);
}

#[test]
fn same_contents_give_same_names_in_two_repositories() {
    let make = || StoreListing {
        dirs: vec![dir_for(FIRST, vec![file("up.sh", b"#!/bin/sh\necho same content\n")])],
    };
    let (a, pa, _) = chain(&make()).ok().unwrap();
    let (b, pb, _) = chain(&make()).ok().unwrap();
    assert_eq!(a[0].next_name, b[0].next_name);
    assert_eq!(pa, pb);
}

#[test]
fn file_names_change_the_next_name() {
    let a = StoreListing { dirs: vec![dir_for(FIRST, vec![file("up.sh", b"echo hi\n")])] };
    let b = StoreListing { dirs: vec![dir_for(FIRST, vec![file("renamed.sh", b"echo hi\n")])] };
    let (ma, pa, _) = chain(&a).ok().unwrap();
    let (mb, pb, _) = chain(&b).ok().unwrap();
    assert_eq!(ma[0].name, mb[0].name);
    assert_ne!(pa, pb);
}

#[test]
fn edited_migration_leaves_orphans_sorted() {
    let a = "4MiLi3GHttj6aBeYiUGyKZ3UF71sMR1ygsvTvt29at81";
    // the first migration was edited, so its successor is no longer reached
    let store = StoreListing {
        dirs: vec![
            dir_for(a, vec![file("up.sh", b"two")]),
            dir_for(FIRST, vec![file("up.sh", b"tampered")]),
            StoreDir { prefix: "zz".to_string(), rest: "top".to_string(), files: vec![] },
            StoreDir { prefix: "11".to_string(), rest: "x".to_string(), files: vec![] },
        ],
    };
    let (ms, _, _) = chain(&store).ok().unwrap();
    assert_eq!(ms.len(), 1);
    let found = orphans(&store, &ms);
    assert_eq!(found, vec!["11x".to_string(), a.to_string(), "zztop".to_string()]);
}

#[test]
fn names_are_base58_of_fixed_length() {
    let n = StoreNameIterator::first_hash();
    assert!(n.len() >= 32 && n.len() <= 44);
    let m = hash_dir(&n, &vec![file("up.sh", b"x")]);
    assert!(m.len() >= 32 && m.len() <= 44);
}
