use gyat::GyatError;
use gyat::bytemap::ByteMap;
use gyat::fs::{ChangeType, WorkFile};
use gyat::hash;
use gyat::objects;
use gyat::ops::{self, Candidate, Repo};

fn b(s: &str) -> Vec<u8> {
    s.as_bytes().to_vec()
}

fn work(path: &str, content: &str) -> WorkFile {
    WorkFile { path: b(path), readonly: false, content: b(content) }
}

fn cand(path: &str, content: &str) -> Candidate {
    Candidate { path: b(path), readonly: false, content: b(content), ignored: false }
}

#[test]
fn content_addressing_dedup() {
    // equal contents: one object file, one hash
    let mut repo = Repo::new();
    let h1 = repo.store.write_blob(&b("same bytes"));
    let h2 = repo.store.write_blob(&b("same bytes"));
    assert_eq!(h1, h2);
    assert_eq!(repo.store.files.len(), 1);
    let h3 = repo.store.write_blob(&b("other bytes"));
    assert_ne!(h1, h3);
    assert_eq!(repo.store.files.len(), 2);
}

#[test]
fn blob_round_trip() {
    let mut repo = Repo::new();
    let content = b("some file content");
    let h = repo.store.write_blob(&content);
    assert_eq!(objects::read_blob(&repo.store, &h).unwrap(), content);
}

#[test]
fn blob_round_trip_keeps_trailing_zeroes() {
    // content ending in null bytes comes back exactly
    let mut repo = Repo::new();
    let content = vec![1u8, 2, 3, 0, 0, 0];
    let h = repo.store.write_blob(&content);
    assert_eq!(objects::read_blob(&repo.store, &h).unwrap(), content);
}

#[test]
fn read_blob_missing_is_not_found() {
    let repo = Repo::new();
    assert_eq!(
        objects::read_blob(&repo.store, &vec![9u8; 20]),
        Err(GyatError::NotFound)
    );
}

#[test]
fn read_tree_missing_is_not_found() {
    let repo = Repo::new();
    assert_eq!(
        objects::read_tree_content(&repo.store, &vec![9u8; 20]),
        Err(GyatError::NotFound)
    );
}

#[test]
fn tree_determinism_across_orders() {
    // the same leaf set, added in two orders, hashes identically
    let wt = vec![work("a.txt", "alpha"), work("d/b.txt", "beta"), work("d/c.txt", "gamma")];
    let mut store1 = gyat::store::ObjectStore::new();
    let mut t1 = gyat::dirtree::Tree::new();
    assert!(t1.add_path(&b("a.txt")));
    assert!(t1.add_path(&b("d/b.txt")));
    assert!(t1.add_path(&b("d/c.txt")));
    let h1 = t1.to_object_file(&mut store1, &wt).unwrap();

    let mut store2 = gyat::store::ObjectStore::new();
    let mut t2 = gyat::dirtree::Tree::new();
    assert!(t2.add_path(&b("d/c.txt")));
    assert!(t2.add_path(&b("a.txt")));
    assert!(t2.add_path(&b("d/b.txt")));
    let h2 = t2.to_object_file(&mut store2, &wt).unwrap();

    assert_eq!(h1, h2);
}

#[test]
fn serialize_missing_content_is_io_error() {
    let wt = vec![work("a.txt", "alpha")];
    let mut store = gyat::store::ObjectStore::new();
    let mut t = gyat::dirtree::Tree::new();
    assert!(t.add_path(&b("missing.txt")));
    assert_eq!(t.to_object_file(&mut store, &wt), Err(GyatError::IoError));
}

#[test]
fn compare_trees_classifies() {
    let mut head = ByteMap::new();
    head.set(b("keep.txt"), vec![1u8; 20]);
    head.set(b("change.txt"), vec![2u8; 20]);
    head.set(b("gone.txt"), vec![3u8; 20]);
    let mut target = ByteMap::new();
    target.set(b("keep.txt"), vec![1u8; 20]);
    target.set(b("change.txt"), vec![4u8; 20]);
    target.set(b("fresh.txt"), vec![5u8; 20]);
    let c = ops::compare_trees(&head, &target).unwrap();
    assert_eq!(c.to_add, vec![(b("fresh.txt"), vec![5u8; 20])]);
    assert_eq!(c.to_modify, vec![(b("change.txt"), vec![4u8; 20])]);
    assert_eq!(c.to_delete, vec![b("gone.txt")]);
}

#[test]
fn see_changes_classifies_and_drains() {
    let mut blob_map = ByteMap::new();
    blob_map.set(b("same.txt"), vec![1u8; 20]);
    blob_map.set(b("edit.txt"), vec![2u8; 20]);
    blob_map.set(b("gone.txt"), vec![3u8; 20]);
    let mut tree = gyat::dirtree::Tree::new();
    let observed = vec![
        (1u8, vec![1u8; 20], b("same.txt")),
        (1u8, vec![9u8; 20], b("edit.txt")),
        (1u8, vec![7u8; 20], b("new.txt")),
    ];
    let changes = gyat::fs::see_changes(&observed, &mut blob_map, &mut tree).unwrap();
    assert_eq!(blob_map.len(), 0);
    assert_eq!(changes.len(), 3);
    assert!(matches!(changes[0].0, ChangeType::Mod));
    assert_eq!(changes[0].1, b("edit.txt"));
    assert!(matches!(changes[1].0, ChangeType::New));
    assert_eq!(changes[1].1, b("new.txt"));
    assert!(matches!(changes[2].0, ChangeType::Del));
    assert_eq!(changes[2].1, b("gone.txt"));
    assert!(tree.contains_path(&b("edit.txt")));
    assert!(tree.contains_path(&b("new.txt")));
    assert!(!tree.contains_path(&b("gone.txt")));
}

#[test]
fn track_rejects_newline_in_message() {
    let mut repo = Repo::new();
    let wt = vec![work("x.txt", "hello")];
    let scope = vec![b("")];
    ops::observe(&mut repo, &vec![cand("x.txt", "hello")], &scope).unwrap();
    assert_eq!(
        ops::track(&mut repo, &wt, &Some(b("bad\nmessage")), &b("Mon Jan 01 12:00:00 2024")),
        Err(GyatError::InvalidArgument)
    );
}

#[test]
fn track_empty_index_commits_nothing() {
    let mut repo = Repo::new();
    let wt: Vec<WorkFile> = Vec::new();
    let r = ops::track(&mut repo, &wt, &Some(b("nothing")), &b("Mon Jan 01 12:00:00 2024"));
    assert_eq!(r, Ok(None));
    assert_eq!(repo.head, b(""));
}

#[test]
fn fresh_repo_first_commit() {
    // create x.txt with "hello", observe ., commit "first": HEAD is the
    // new commit and its tree flattens to x.txt -> sha1("hello")
    let mut repo = Repo::new();
    let wt = vec![work("x.txt", "hello")];
    let scope = vec![b("")];
    ops::observe(&mut repo, &vec![cand("x.txt", "hello")], &scope).unwrap();
    assert_eq!(repo.index.len(), 1);
    assert!(matches!(repo.index[0].change, ChangeType::New));
    assert_eq!(repo.index[0].path, b("x.txt"));

    let h1 = ops::track(&mut repo, &wt, &Some(b("first")), &b("Mon Jan 01 12:00:00 2024"))
        .unwrap()
        .unwrap();
    assert_eq!(repo.head, h1);
    assert_eq!(repo.index.len(), 0);

    let root_hex = ops::get_root_tree_hash(&repo, None).unwrap().unwrap();
    let root = hash::from_string(&root_hex).unwrap();
    let blobs = objects::get_blobs_from_root(&repo.store, &root).unwrap();
    assert_eq!(blobs.len(), 1);
    let expected = hash::from_string(&b("aaf4c61ddcc5e8a2dabede0f3b482cd9aea9434d")).unwrap();
    assert_eq!(blobs.get(&b("x.txt")), Some(&expected));
}

#[test]
fn observe_unchanged_after_commit_is_empty() {
    // observing twice with no working-directory changes right after a
    // commit leaves the staging index empty both times
    let mut repo = Repo::new();
    let wt = vec![work("x.txt", "hello")];
    let scope = vec![b("")];
    ops::observe(&mut repo, &vec![cand("x.txt", "hello")], &scope).unwrap();
    ops::track(&mut repo, &wt, &Some(b("first")), &b("Mon Jan 01 12:00:00 2024"))
        .unwrap()
        .unwrap();
    ops::observe(&mut repo, &vec![cand("x.txt", "hello")], &scope).unwrap();
    assert_eq!(repo.index.len(), 0);
    ops::observe(&mut repo, &vec![cand("x.txt", "hello")], &scope).unwrap();
    assert_eq!(repo.index.len(), 0);
}

#[test]
fn modify_observe_stages_one_mod() {
    // modify x.txt to "world", observe: the index holds exactly one Mod
    let mut repo = Repo::new();
    let scope = vec![b("")];
    ops::observe(&mut repo, &vec![cand("x.txt", "hello")], &scope).unwrap();
    ops::track(
        &mut repo,
        &vec![work("x.txt", "hello")],
        &Some(b("first")),
        &b("Mon Jan 01 12:00:00 2024"),
    )
    .unwrap()
    .unwrap();

    ops::observe(&mut repo, &vec![cand("x.txt", "world")], &scope).unwrap();
    assert_eq!(repo.index.len(), 1);
    assert!(matches!(repo.index[0].change, ChangeType::Mod));
    assert_eq!(repo.index[0].path, b("x.txt"));

    let h2 = ops::track(
        &mut repo,
        &vec![work("x.txt", "world")],
        &Some(b("second")),
        &b("Mon Jan 01 12:00:01 2024"),
    )
    .unwrap()
    .unwrap();
    assert_eq!(repo.head, h2);
}

#[test]
fn fallback_reverts_and_appends_commit() {
    // checkout to the first commit: x.txt reverts to "hello" and the
    // fallback is recorded as a new commit on top
    let mut repo = Repo::new();
    let scope = vec![b("")];
    ops::observe(&mut repo, &vec![cand("x.txt", "hello")], &scope).unwrap();
    let h1 = ops::track(
        &mut repo,
        &vec![work("x.txt", "hello")],
        &Some(b("first")),
        &b("Mon Jan 01 12:00:00 2024"),
    )
    .unwrap()
    .unwrap();
    ops::observe(&mut repo, &vec![cand("x.txt", "world")], &scope).unwrap();
    let h2 = ops::track(
        &mut repo,
        &vec![work("x.txt", "world")],
        &Some(b("second")),
        &b("Mon Jan 01 12:00:01 2024"),
    )
    .unwrap()
    .unwrap();
    assert_ne!(h1, h2);

    // plan the checkout to the first commit
    let changes = ops::fallback(&repo, Some(&h1)).unwrap().unwrap();
    assert_eq!(changes.to_add.len(), 0);
    assert_eq!(changes.to_delete.len(), 0);
    assert_eq!(changes.to_modify.len(), 1);
    assert_eq!(changes.to_modify[0].0, b("x.txt"));

    // apply the delta to the working tree, as the program around the
    // library would
    let mut wt = vec![work("x.txt", "world")];
    for (path, h) in changes.to_modify.iter().chain(changes.to_add.iter()) {
        let content = objects::read_blob(&repo.store, h).unwrap();
        let mut placed = false;
        for f in wt.iter_mut() {
            if &f.path == path {
                f.content = content.clone();
                placed = true;
            }
        }
        if !placed {
            wt.push(WorkFile { path: path.clone(), readonly: false, content });
        }
    }
    wt.retain(|f| !changes.to_delete.contains(&f.path));
    assert_eq!(wt.len(), 1);
    assert_eq!(wt[0].content, b("hello"));

    // record the checkout itself as a commit
    let mut msg = b("Fallback to the commit with commit_id ");
    msg.extend_from_slice(&h1);
    ops::observe(&mut repo, &vec![cand("x.txt", "hello")], &scope).unwrap();
    let h3 = ops::track(&mut repo, &wt, &Some(msg), &b("Mon Jan 01 12:00:02 2024"))
        .unwrap()
        .unwrap();
    assert_eq!(repo.head, h3);

    // the log walks the whole chain: fallback commit, second, first
    let chain = ops::wood(&repo, 10).unwrap();
    assert_eq!(chain, vec![h3.clone(), h2.clone(), h1.clone()]);
}

#[test]
fn fallback_without_commits_is_a_no_op() {
    let repo = Repo::new();
    assert_eq!(ops::fallback(&repo, Some(&b("0123456789abcdef0123"))), Ok(None));
}

#[test]
fn fallback_to_missing_commit_is_a_no_op() {
    let mut repo = Repo::new();
    let scope = vec![b("")];
    ops::observe(&mut repo, &vec![cand("x.txt", "hello")], &scope).unwrap();
    ops::track(
        &mut repo,
        &vec![work("x.txt", "hello")],
        &Some(b("first")),
        &b("Mon Jan 01 12:00:00 2024"),
    )
    .unwrap()
    .unwrap();
    let missing = b("ffffffffffffffffffffffffffffffffffffffff");
    assert_eq!(ops::fallback(&repo, Some(&missing)), Ok(None));
}

#[test]
fn observe_respects_ignore_and_scope() {
    let mut repo = Repo::new();
    // the ignored candidate never reaches the index
    let cands = vec![
        cand("x.txt", "hello"),
        Candidate { path: b("skip.log"), readonly: false, content: b("noise"), ignored: true },
    ];
    let scope = vec![b("")];
    ops::observe(&mut repo, &cands, &scope).unwrap();
    assert_eq!(repo.index.len(), 1);
    assert_eq!(repo.index[0].path, b("x.txt"));

    // paths outside the requested scope stay untouched and unreported
    ops::track(
        &mut repo,
        &vec![work("x.txt", "hello")],
        &Some(b("first")),
        &b("Mon Jan 01 12:00:00 2024"),
    )
    .unwrap()
    .unwrap();
    let narrow = vec![b("sub")];
    ops::observe(&mut repo, &vec![cand("sub/new.txt", "fresh")], &narrow).unwrap();
    assert_eq!(repo.index.len(), 1);
    assert_eq!(repo.index[0].path, b("sub/new.txt"));
    assert!(matches!(repo.index[0].change, ChangeType::New));
}

#[test]
fn wood_zero_lines_prints_nothing() {
    let repo = Repo::new();
    assert_eq!(ops::wood(&repo, 0), Ok(Vec::new()));
}

#[test]
fn timestamp_is_produced() {
    let ts = ops::current_timestamp();
    assert!(ts.len() > 0);
    assert!(!ts.contains(&b'\n'));
}

#[test]
fn track_now_commits_with_the_clock() {
    let mut repo = Repo::new();
    let scope = vec![b("")];
    ops::observe(&mut repo, &vec![cand("x.txt", "hello")], &scope).unwrap();
    let wt = vec![work("x.txt", "hello")];
    let h = ops::track_now(&mut repo, &wt, &Some(b("first"))).unwrap().unwrap();
    assert_eq!(repo.head, h);
    assert_eq!(repo.index.len(), 0);
    assert_eq!(repo.store.commits.len(), 1);
    // with the index empty again, nothing is committed and nothing moves
    assert_eq!(ops::track_now(&mut repo, &wt, &Some(b("again"))), Ok(None));
    assert_eq!(repo.head, h);
    assert_eq!(repo.store.commits.len(), 1);
}
