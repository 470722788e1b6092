use gyat::GyatError;
use gyat::fs::{ChangeType, FsEntry, FsKind, IndexEntry};
use gyat::hash;
use gyat::objects::{CommitObject, FType, FileObject};

fn b(s: &str) -> Vec<u8> {
    s.as_bytes().to_vec()
}

#[test]
fn sha1_test() {
    // two equal inputs produce equal digests, and a known digest
    let h1 = hash::get_sha1_bytes(&b("hello"));
    let h2 = hash::get_sha1_bytes(&b("hello"));
    assert_eq!(h1, h2);
    assert_eq!(
        hash::get_sha1_string(&b("hello")),
        b("aaf4c61ddcc5e8a2dabede0f3b482cd9aea9434d")
    );
}

#[test]
fn hex_round_trip() {
    let raw = vec![0xdeu8, 0xad, 0xbe, 0xef, 0, 1, 2, 3, 4, 5, 6, 7, 8, 9, 10, 11, 12, 13, 14, 255];
    let hex = hash::to_string(&raw);
    assert_eq!(hex.len(), 40);
    assert_eq!(hash::from_string(&hex).unwrap(), raw);
    assert_eq!(&hex[..8], b("deadbeef").as_slice());
}

#[test]
fn from_string_rejects_bad_input() {
    assert_eq!(hash::from_string(&b("zz")), Err(GyatError::HashDecodeError));
    assert_eq!(hash::from_string(&b("abc")), Err(GyatError::HashDecodeError));
    assert_eq!(hash::from_string(&b("abcd")), Err(GyatError::HashDecodeError));
}

#[test]
fn tree_content_round_trip() {
    let children = vec![
        FileObject { ftype: FType::Blob, hash: vec![0xabu8; 20], component: b("cli.rs") },
        FileObject { ftype: FType::Tree, hash: vec![0x01u8; 20], component: b("sub") },
    ];
    let content = gyat::objects::format_tree_content(&children);
    let expect = b(
        "blob\tabababababababababababababababababababab\tcli.rs\ntree\t0101010101010101010101010101010101010101\tsub\n",
    );
    assert_eq!(content, expect);
    let parsed = gyat::objects::parse_tree_content(&content).unwrap();
    assert_eq!(parsed.len(), 2);
    assert_eq!(parsed[0].ftype, FType::Blob);
    assert_eq!(parsed[0].hash, vec![0xabu8; 20]);
    assert_eq!(parsed[0].component, b("cli.rs"));
    assert_eq!(parsed[1].ftype, FType::Tree);
    assert_eq!(parsed[1].component, b("sub"));
}

#[test]
fn tree_content_bad_kind_is_format_error() {
    let content = b("blip\tabababababababababababababababababababab\tcli.rs\n");
    assert_eq!(
        gyat::objects::parse_tree_content(&content),
        Err(GyatError::FormatError)
    );
}

#[test]
fn tree_content_bad_hash_is_decode_error() {
    let content = b("blob\tnothex\tcli.rs\n");
    assert_eq!(
        gyat::objects::parse_tree_content(&content),
        Err(GyatError::HashDecodeError)
    );
}

#[test]
fn commit_content_round_trip() {
    let changes = vec![IndexEntry {
        perm: 1,
        hash: vec![0x11u8; 20],
        path: b("x.txt"),
        change: ChangeType::New,
    }];
    let root_hex = b("2222222222222222222222222222222222222222");
    let content = gyat::objects::format_commit_content(
        &None,
        &root_hex,
        &b("first"),
        &b("Mon Jan 01 12:00:00 2024"),
        &changes,
    );
    let expect = b(
        "Parent: 0\nTree: 2222222222222222222222222222222222222222\nMessage: first\nDate: Mon Jan 01 12:00:00 2024\nChanges:\nNew\tx.txt\n",
    );
    assert_eq!(content, expect);
    let co: CommitObject = gyat::objects::parse_commit_content(&content).unwrap();
    assert!(co.parent.is_none());
    assert_eq!(co.root, vec![0x22u8; 20]);

    let parent_hex = b("aaaaaaaaaaaaaaaaaaaaaaaaaaaaaaaaaaaaaaaa");
    let content2 = gyat::objects::format_commit_content(
        &Some(parent_hex),
        &root_hex,
        &b("second"),
        &b("Mon Jan 01 12:00:01 2024"),
        &changes,
    );
    let co2 = gyat::objects::parse_commit_content(&content2).unwrap();
    assert_eq!(co2.parent, Some(vec![0xaau8; 20]));
    assert_eq!(co2.root, vec![0x22u8; 20]);
}

#[test]
fn commit_content_empty_is_format_error() {
    assert_eq!(
        gyat::objects::parse_commit_content(&Vec::new()),
        Err(GyatError::FormatError)
    );
    assert_eq!(
        gyat::objects::parse_commit_content(&b("Parent: 0\n")),
        Err(GyatError::FormatError)
    );
}

#[test]
fn index_round_trip() {
    let entries = vec![
        IndexEntry { perm: 0, hash: vec![0x33u8; 20], path: b("a.txt"), change: ChangeType::New },
        IndexEntry { perm: 1, hash: vec![0x44u8; 20], path: b("d/b.txt"), change: ChangeType::Mod },
        IndexEntry { perm: 1, hash: vec![0x55u8; 20], path: b("c.txt"), change: ChangeType::Del },
    ];
    let content = gyat::fs::encode_index(&entries);
    let expect = b(
        "0\t3333333333333333333333333333333333333333\ta.txt\tNew\n1\t4444444444444444444444444444444444444444\td/b.txt\tMod\n1\t5555555555555555555555555555555555555555\tc.txt\tDel\n",
    );
    assert_eq!(content, expect);
    let parsed = gyat::fs::read_index(&content).unwrap();
    assert_eq!(parsed.len(), 3);
    assert_eq!(parsed[0].perm, 0);
    assert_eq!(parsed[0].path, b("a.txt"));
    assert!(matches!(parsed[0].change, ChangeType::New));
    assert_eq!(parsed[1].path, b("d/b.txt"));
    assert!(matches!(parsed[1].change, ChangeType::Mod));
    assert!(matches!(parsed[2].change, ChangeType::Del));
}

#[test]
fn index_bad_change_is_format_error() {
    let content = b("1\t4444444444444444444444444444444444444444\tb.txt\tNope\n");
    assert_eq!(gyat::fs::read_index(&content), Err(GyatError::FormatError));
}

#[test]
fn index_bad_perm_is_format_error() {
    let content = b("7\t4444444444444444444444444444444444444444\tb.txt\tNew\n");
    assert_eq!(gyat::fs::read_index(&content), Err(GyatError::FormatError));
}

#[test]
fn normalize_drops_dot_and_resolves_dotdot() {
    assert_eq!(gyat::fs::normalize(&b("a/./b/../c")), b("a/c"));
    assert_eq!(gyat::fs::normalize(&b("./x.txt")), b("x.txt"));
    assert_eq!(gyat::fs::normalize(&b("a//b")), b("a/b"));
    assert_eq!(gyat::fs::normalize(&b("..")), b(""));
}

#[test]
fn listing_selectors() {
    let entries = vec![
        FsEntry { path: b("src"), kind: FsKind::Dir },
        FsEntry { path: b("src/a.rs"), kind: FsKind::File },
        FsEntry { path: b("link"), kind: FsKind::Symlink },
        FsEntry { path: b("src/sub"), kind: FsKind::Dir },
    ];
    assert_eq!(gyat::fs::get_files_and_syms(&entries), vec![b("src/a.rs"), b("link")]);
    assert_eq!(gyat::fs::get_dirs(&entries), vec![b("src"), b("src/sub")]);
    let (dirs, files) = gyat::fs::get_files_and_dirs(&entries);
    assert_eq!(dirs, vec![b("src"), b("src/sub")]);
    assert_eq!(files, vec![b("src/a.rs"), b("link")]);
}

#[test]
fn repo_root_discovery() {
    let marked = vec![b("home/user/repo")];
    assert_eq!(
        gyat::root::get_repo_root(&b("home/user/repo/src/deep"), &marked),
        Some(b("home/user/repo"))
    );
    assert_eq!(gyat::root::get_repo_root(&b("home/user/other"), &marked), None);
    assert!(gyat::root::is_repo(&b("home/user/repo"), &marked));
    assert!(!gyat::root::is_repo(&b("home"), &marked));
    assert_eq!(gyat::root::get_repo_root(&b(""), &marked), None);
}

#[test]
fn gyat_paths_layout() {
    let paths = gyat::utils::gyat_paths(&b("repo"));
    assert_eq!(paths.repo_root, b("repo"));
    assert_eq!(paths.gyat_path, b("repo/.gyat"));
    assert_eq!(paths.index_path, b("repo/.gyat/index"));
    assert_eq!(paths.head_path, b("repo/.gyat/HEAD"));
    assert_eq!(paths.commits_path, b("repo/.gyat/commits"));
    assert_eq!(paths.dirs_path, b("repo/.gyat/dirs"));
    assert_eq!(paths.files_path, b("repo/.gyat/files"));
}

#[test]
fn repo_name_validation() {
    assert_eq!(gyat::utils::validate_repo_name(&None), Ok(()));
    assert_eq!(gyat::utils::validate_repo_name(&Some(b("myrepo"))), Ok(()));
    assert_eq!(
        gyat::utils::validate_repo_name(&Some(b(""))),
        Err(GyatError::InvalidArgument)
    );
    assert_eq!(
        gyat::utils::validate_repo_name(&Some(b("."))),
        Err(GyatError::InvalidArgument)
    );
    assert_eq!(
        gyat::utils::validate_repo_name(&Some(b(".."))),
        Err(GyatError::InvalidArgument)
    );
}

#[test]
fn missing_repo_root_is_an_error() {
    let marked: Vec<Vec<u8>> = Vec::new();
    assert_eq!(
        gyat::root::require_repo_root(&b("home/user"), &marked),
        Err(GyatError::NotARepository)
    );
    assert_eq!(
        gyat::root::require_repo_root(&b("home/repo/src"), &vec![b("home/repo")]),
        Ok(b("home/repo"))
    );
}
