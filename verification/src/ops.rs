//! Repository-level operations: observing changes, committing them,
//! planning a checkout, and walking the commit log.
//!
//! A repository is modelled as a value: the object store, the HEAD
//! pointer (a commit hash in hex, empty before the first commit) and
//! the staging index.  The surrounding program loads this value from
//! disk, runs one operation, and persists what changed.

use vstd::prelude::*;
use crate::GyatError;
use crate::bytemap::ByteMap;
use crate::bytes::{is_prefix, trim_spec, split_spec};
use crate::fs::{ChangeType, IndexEntry, IndexEntryV, WorkFile};
use crate::hash::{hex_encode, hex_decode, is_valid_hex, sha1_of};
use crate::objects::{flatten_tree_spec, tree_label_spec};
use crate::store::ObjectStore;

verus! {

/// A repository: its object store, HEAD and staging index.
pub struct Repo {
    pub store: ObjectStore,
    pub head: Vec<u8>,
    pub index: Vec<IndexEntry>,
}

impl Repo {
    pub open spec fn wf(&self) -> bool {
        self.store.wf()
    }

    /// An empty repository: no objects, no commits, an empty index.
    pub fn new() -> (r: Repo)
        ensures
            r.wf(),
            r.store.files@ == Seq::<(Seq<u8>, Seq<u8>)>::empty(),
            r.store.dirs@ == Seq::<(Seq<u8>, Seq<u8>)>::empty(),
            r.store.commits@ == Seq::<(Seq<u8>, Seq<u8>)>::empty(),
            r.head@ == Seq::<u8>::empty(),
            r.index@ == Seq::<IndexEntry>::empty(),
    {
        Repo { store: ObjectStore::new(), head: Vec::new(), index: Vec::new() }
    }
}

/// The first `Tree: ` line of a commit record, without its label.
pub open spec fn find_tree_line(lines: Seq<Seq<u8>>) -> Option<Seq<u8>>
    decreases lines.len(),
{
    if lines.len() == 0 {
        None
    } else if is_prefix(tree_label_spec(), lines[0]) {
        Some(lines[0].skip(6))
    } else {
        find_tree_line(lines.skip(1))
    }
}

/// What `get_root_tree_hash` yields: the root tree hash (in hex) of the
/// named commit, of HEAD's commit when none is named, or nothing at all
/// when there is no commit yet.
pub open spec fn spec_root_tree_hash(
    commits: Map<Seq<u8>, Seq<u8>>,
    head: Seq<u8>,
    ch: Option<Seq<u8>>,
) -> Result<Option<Seq<u8>>, GyatError> {
    let hash = match ch {
        Some(h) => h,
        None => trim_spec(head),
    };
    if hash.len() == 0 {
        Ok(None)
    } else if !commits.contains_key(hash) {
        Err(GyatError::IoError)
    } else {
        match find_tree_line(split_spec(commits[hash], 10)) {
            None => Err(GyatError::FormatError),
            Some(t) => Ok(Some(t)),
        }
    }
}

/// Read the root tree hash recorded by a commit: the named one, or
/// HEAD's when none is named.  Yields nothing when HEAD is empty, and
/// fails when the commit is missing or records no tree.
pub fn get_root_tree_hash(repo: &Repo, commit_hash: Option<&Vec<u8>>) -> (r: Result<
    Option<Vec<u8>>,
    GyatError,
>)
    requires
        repo.wf(),
    ensures
        ({
            let res = spec_root_tree_hash(
                repo.store.commits.as_map(),
                repo.head@,
                match commit_hash {
                    Some(h) => Some(h@),
                    None => None,
                },
            );
            match r {
                Ok(Some(t)) => res == Ok::<Option<Seq<u8>>, GyatError>(Some(t@)),
                Ok(None) => res == Ok::<Option<Seq<u8>>, GyatError>(None),
                Err(e) => res == Err::<Option<Seq<u8>>, GyatError>(e),
            }
        }),
{
    let hash: Vec<u8> = match commit_hash {
        Some(h) => crate::bytes::copy_bytes(h),
        None => crate::bytes::trim(&repo.head),
    };
    if hash.len() == 0 {
        return Ok(None);
    }
    let content = match repo.store.commits.get(&hash) {
        None => {
            return Err(GyatError::IoError);
        },
        Some(c) => c,
    };
    let lines = crate::bytes::split(content, 10);
    let ghost lv = lines@.map_values(|p: Vec<u8>| p@);
    let mut label: Vec<u8> = Vec::new();
    label.push(84);
    label.push(114);
    label.push(101);
    label.push(101);
    label.push(58);
    label.push(32);
    proof {
        assert(label@ =~= tree_label_spec());
        assert(lv.skip(0) =~= lv);
    }
    let mut i: usize = 0;
    while i < lines.len()
        invariant
            i <= lines.len(),
            repo.wf(),
            lv == lines@.map_values(|p: Vec<u8>| p@),
            label@ == tree_label_spec(),
            find_tree_line(lv) == find_tree_line(lv.skip(i as int)),
            hash@ == (match commit_hash {
                Some(h) => h@,
                None => trim_spec(repo.head@),
            }),
            hash@.len() != 0,
            repo.store.commits.as_map().contains_key(hash@),
            content@ == repo.store.commits.as_map()[hash@],
            lv == split_spec(content@, 10),
        decreases lines.len() - i,
    {
        proof {
            assert(lv.skip(i as int)[0] == lv[i as int]);
            assert(lv[i as int] == lines@[i as int]@);
            assert(lv.skip(i as int).skip(1) =~= lv.skip(i + 1));
        }
        if crate::bytes::starts_with(&lines[i], &label) {
            let t = crate::bytes::copy_tail(&lines[i], 6);
            return Ok(Some(t));
        }
        i = i + 1;
    }
    proof {
        assert(lv.skip(i as int).len() == 0);
    }
    Err(GyatError::FormatError)
}

/// The flattened blob set of a commit's tree: the root tree hash is
/// read from the commit, decoded, and expanded into (path, hash)
/// entries.  `ch` of none reads HEAD's commit; an absent commit chain
/// is an error the callers may swallow.
pub open spec fn spec_blobs_of(
    commits: Map<Seq<u8>, Seq<u8>>,
    dirs: Map<Seq<u8>, Seq<u8>>,
    dirs_count: nat,
    head: Seq<u8>,
    ch: Option<Seq<u8>>,
) -> Result<Seq<(Seq<u8>, Seq<u8>)>, GyatError> {
    match spec_root_tree_hash(commits, head, ch) {
        Err(e) => Err(e),
        Ok(None) => Err(GyatError::NotFound),
        Ok(Some(root_hex)) => {
            if !(is_valid_hex(root_hex) && hex_decode(root_hex).len() >= 20) {
                Err(GyatError::HashDecodeError)
            } else {
                flatten_tree_spec(
                    dirs,
                    hex_encode(hex_decode(root_hex).take(20)),
                    Seq::<u8>::empty(),
                    Seq::<(Seq<u8>, Seq<u8>)>::empty(),
                    dirs_count,
                )
            }
        },
    }
}

/// The blob set of the commit `ch` names, or of HEAD's commit when it
/// names none.
pub fn blobs_of_commit(repo: &Repo, commit_hash: Option<&Vec<u8>>) -> (r: Result<
    ByteMap,
    GyatError,
>)
    requires
        repo.wf(),
    ensures
        ({
            let res = spec_blobs_of(
                repo.store.commits.as_map(),
                repo.store.dirs.as_map(),
                repo.store.dirs@.len(),
                repo.head@,
                match commit_hash {
                    Some(h) => Some(h@),
                    None => None,
                },
            );
            match r {
                Ok(m) => res matches Ok(out) && m@ == out && m.wf(),
                Err(e) => res matches Err(e2) && e == e2,
            }
        }),
{
    let root_hex = match get_root_tree_hash(repo, commit_hash) {
        Err(e) => {
            return Err(e);
        },
        Ok(None) => {
            return Err(GyatError::NotFound);
        },
        Ok(Some(t)) => t,
    };
    let root = match crate::hash::from_string(&root_hex) {
        Err(e) => {
            return Err(e);
        },
        Ok(h) => h,
    };
    crate::objects::get_blobs_from_root(&repo.store, &root)
}

/// The file-system delta between two commits' blob sets.
#[derive(Debug, PartialEq, Eq)]
pub struct Changes {
    pub to_add: Vec<(Vec<u8>, Vec<u8>)>,
    pub to_modify: Vec<(Vec<u8>, Vec<u8>)>,
    pub to_delete: Vec<Vec<u8>>,
}

/// Entries of the target set whose path is absent from the head map,
/// in target order.
pub open spec fn to_add_spec(head: Map<Seq<u8>, Seq<u8>>, target: Seq<(Seq<u8>, Seq<u8>)>) -> Seq<
    (Seq<u8>, Seq<u8>),
>
    decreases target.len(),
{
    if target.len() == 0 {
        Seq::empty()
    } else {
        let rest = to_add_spec(head, target.skip(1));
        if !head.contains_key(target[0].0) {
            seq![target[0]] + rest
        } else {
            rest
        }
    }
}

/// Entries of the target set whose path the head map holds with a
/// different hash, in target order, carrying the target hash.
pub open spec fn to_modify_spec(
    head: Map<Seq<u8>, Seq<u8>>,
    target: Seq<(Seq<u8>, Seq<u8>)>,
) -> Seq<(Seq<u8>, Seq<u8>)>
    decreases target.len(),
{
    if target.len() == 0 {
        Seq::empty()
    } else {
        let rest = to_modify_spec(head, target.skip(1));
        if head.contains_key(target[0].0) && head[target[0].0] != target[0].1 {
            seq![target[0]] + rest
        } else {
            rest
        }
    }
}

/// Paths of the head set that the target map no longer holds, in head
/// order.
pub open spec fn to_delete_spec(
    head: Seq<(Seq<u8>, Seq<u8>)>,
    target: Map<Seq<u8>, Seq<u8>>,
) -> Seq<Seq<u8>>
    decreases head.len(),
{
    if head.len() == 0 {
        Seq::empty()
    } else {
        let rest = to_delete_spec(head.skip(1), target);
        if !target.contains_key(head[0].0) {
            seq![head[0].0] + rest
        } else {
            rest
        }
    }
}

/// Compare two blob sets: what must be added, overwritten or deleted to
/// move the working directory from `head_blobs` to `commit_blobs`.
pub fn compare_trees(head_blobs: &ByteMap, commit_blobs: &ByteMap) -> (r: Result<
    Changes,
    GyatError,
>)
    requires
        head_blobs.wf(),
        commit_blobs.wf(),
    ensures
        r matches Ok(c) && c.to_add@.map_values(|e: (Vec<u8>, Vec<u8>)| (e.0@, e.1@))
            == to_add_spec(head_blobs.as_map(), commit_blobs@) && c.to_modify@.map_values(
            |e: (Vec<u8>, Vec<u8>)| (e.0@, e.1@),
        ) == to_modify_spec(head_blobs.as_map(), commit_blobs@) && c.to_delete@.map_values(
            |p: Vec<u8>| p@,
        ) == to_delete_spec(head_blobs@, commit_blobs.as_map()),
{
    let ghost hm = head_blobs.as_map();
    let ghost tv = commit_blobs@;
    let mut to_add: Vec<(Vec<u8>, Vec<u8>)> = Vec::new();
    let mut to_modify: Vec<(Vec<u8>, Vec<u8>)> = Vec::new();
    let mut i: usize = 0;
    proof {
        assert(tv.skip(0) =~= tv);
        assert(to_add@.map_values(|e: (Vec<u8>, Vec<u8>)| (e.0@, e.1@)) =~= Seq::<
            (Seq<u8>, Seq<u8>),
        >::empty());
        assert(to_modify@.map_values(|e: (Vec<u8>, Vec<u8>)| (e.0@, e.1@)) =~= Seq::<
            (Seq<u8>, Seq<u8>),
        >::empty());
    }
    while i < commit_blobs.len()
        invariant
            i <= tv.len(),
            head_blobs.wf(),
            commit_blobs.wf(),
            hm == head_blobs.as_map(),
            tv == commit_blobs@,
            to_add_spec(hm, tv) == to_add@.map_values(|e: (Vec<u8>, Vec<u8>)| (e.0@, e.1@))
                + to_add_spec(hm, tv.skip(i as int)),
            to_modify_spec(hm, tv) == to_modify@.map_values(|e: (Vec<u8>, Vec<u8>)| (e.0@, e.1@))
                + to_modify_spec(hm, tv.skip(i as int)),
        decreases tv.len() - i,
    {
        proof {
            assert(tv.skip(i as int)[0] == tv[i as int]);
            assert(tv.skip(i as int).skip(1) =~= tv.skip(i + 1));
        }
        let path = commit_blobs.key_at(i);
        let hash = commit_blobs.value_at(i);
        let ghost av = to_add@.map_values(|e: (Vec<u8>, Vec<u8>)| (e.0@, e.1@));
        let ghost mv = to_modify@.map_values(|e: (Vec<u8>, Vec<u8>)| (e.0@, e.1@));
        match head_blobs.get(path) {
            Some(head_hash) => {
                if !crate::bytes::bytes_eq(head_hash, hash) {
                    let p2 = crate::bytes::copy_bytes(path);
                    let h2 = crate::bytes::copy_bytes(hash);
                    to_modify.push((p2, h2));
                    proof {
                        assert(to_modify@.map_values(|e: (Vec<u8>, Vec<u8>)| (e.0@, e.1@))
                            =~= mv.push(tv[i as int]));
                        assert(mv.push(tv[i as int]) + to_modify_spec(hm, tv.skip(i + 1)) =~= mv
                            + (seq![tv[i as int]] + to_modify_spec(hm, tv.skip(i + 1))));
                    }
                }
            },
            None => {
                let p2 = crate::bytes::copy_bytes(path);
                let h2 = crate::bytes::copy_bytes(hash);
                to_add.push((p2, h2));
                proof {
                    assert(to_add@.map_values(|e: (Vec<u8>, Vec<u8>)| (e.0@, e.1@)) =~= av.push(
                        tv[i as int],
                    ));
                    assert(av.push(tv[i as int]) + to_add_spec(hm, tv.skip(i + 1)) =~= av + (seq![
                        tv[i as int],
                    ] + to_add_spec(hm, tv.skip(i + 1))));
                }
            },
        }
        i = i + 1;
    }
    proof {
        assert(tv.skip(i as int).len() == 0);
        assert(to_add@.map_values(|e: (Vec<u8>, Vec<u8>)| (e.0@, e.1@)) + Seq::<
            (Seq<u8>, Seq<u8>),
        >::empty() =~= to_add@.map_values(|e: (Vec<u8>, Vec<u8>)| (e.0@, e.1@)));
        assert(to_modify@.map_values(|e: (Vec<u8>, Vec<u8>)| (e.0@, e.1@)) + Seq::<
            (Seq<u8>, Seq<u8>),
        >::empty() =~= to_modify@.map_values(|e: (Vec<u8>, Vec<u8>)| (e.0@, e.1@)));
    }
    let ghost hv = head_blobs@;
    let ghost tm = commit_blobs.as_map();
    let mut to_delete: Vec<Vec<u8>> = Vec::new();
    let mut j: usize = 0;
    proof {
        assert(hv.skip(0) =~= hv);
        assert(to_delete@.map_values(|p: Vec<u8>| p@) =~= Seq::<Seq<u8>>::empty());
    }
    while j < head_blobs.len()
        invariant
            j <= hv.len(),
            head_blobs.wf(),
            commit_blobs.wf(),
            hv == head_blobs@,
            tm == commit_blobs.as_map(),
            to_delete_spec(hv, tm) == to_delete@.map_values(|p: Vec<u8>| p@) + to_delete_spec(
                hv.skip(j as int),
                tm,
            ),
        decreases hv.len() - j,
    {
        proof {
            assert(hv.skip(j as int)[0] == hv[j as int]);
            assert(hv.skip(j as int).skip(1) =~= hv.skip(j + 1));
        }
        let path = head_blobs.key_at(j);
        let ghost dv = to_delete@.map_values(|p: Vec<u8>| p@);
        if !commit_blobs.contains(path) {
            let p2 = crate::bytes::copy_bytes(path);
            to_delete.push(p2);
            proof {
                assert(to_delete@.map_values(|p: Vec<u8>| p@) =~= dv.push(hv[j as int].0));
                assert(dv.push(hv[j as int].0) + to_delete_spec(hv.skip(j + 1), tm) =~= dv + (seq![
                    hv[j as int].0,
                ] + to_delete_spec(hv.skip(j + 1), tm)));
            }
        }
        j = j + 1;
    }
    proof {
        assert(hv.skip(j as int).len() == 0);
        assert(to_delete@.map_values(|p: Vec<u8>| p@) + Seq::<Seq<u8>>::empty()
            =~= to_delete@.map_values(|p: Vec<u8>| p@));
    }
    Ok(Changes { to_add, to_modify, to_delete })
}

/// Plan a checkout ("fallback") to a prior commit: flatten HEAD's and
/// the target's blob sets and compute the delta between them.  The two
/// stated preconditions of a checkout — some commit exists, and the
/// target commit exists — are deliberately soft: when either fails the
/// plan is no plan at all, not an error.  Applying the delta, and
/// recording the checkout as a fresh commit, is the surrounding
/// program's part.
pub fn fallback(repo: &Repo, commit_hash: Option<&Vec<u8>>) -> (r: Result<
    Option<Changes>,
    GyatError,
>)
    requires
        repo.wf(),
    ensures
        r is Ok,
        ({
            let hb = spec_blobs_of(
                repo.store.commits.as_map(),
                repo.store.dirs.as_map(),
                repo.store.dirs@.len(),
                repo.head@,
                None,
            );
            let tb = spec_blobs_of(
                repo.store.commits.as_map(),
                repo.store.dirs.as_map(),
                repo.store.dirs@.len(),
                repo.head@,
                match commit_hash {
                    Some(h) => Some(h@),
                    None => None,
                },
            );
            match r {
                Ok(None) => hb is Err || tb is Err,
                Ok(Some(c)) => hb matches Ok(h) && tb matches Ok(t) && c.to_add@.map_values(
                    |e: (Vec<u8>, Vec<u8>)| (e.0@, e.1@),
                ) == to_add_spec(crate::bytemap::map_of(h), t) && c.to_modify@.map_values(
                    |e: (Vec<u8>, Vec<u8>)| (e.0@, e.1@),
                ) == to_modify_spec(crate::bytemap::map_of(h), t) && c.to_delete@.map_values(
                    |p: Vec<u8>| p@,
                ) == to_delete_spec(h, crate::bytemap::map_of(t)),
                Err(_) => false,
            }
        }),
{
    let head_blobs = match blobs_of_commit(repo, None) {
        Ok(b) => b,
        Err(_) => {
            return Ok(None);
        },
    };
    let commit_blobs = match blobs_of_commit(repo, commit_hash) {
        Ok(b) => b,
        Err(_) => {
            return Ok(None);
        },
    };
    match compare_trees(&head_blobs, &commit_blobs) {
        Ok(c) => Ok(Some(c)),
        Err(e) => Err(e),
    }
}


/// One candidate file of an observe step, as the surrounding program
/// hands it in: its repo-relative path, permission flag, content, and
/// whether the ignore predicate (the pattern collaborator) excludes it.
#[derive(Debug)]
pub struct Candidate {
    pub path: Vec<u8>,
    pub readonly: bool,
    pub content: Vec<u8>,
    pub ignored: bool,
}

/// The mathematical value of a `Candidate`.
#[verifier::ext_equal]
pub struct CandidateV {
    pub path: Seq<u8>,
    pub readonly: bool,
    pub content: Seq<u8>,
    pub ignored: bool,
}

impl View for Candidate {
    type V = CandidateV;

    open spec fn view(&self) -> CandidateV {
        CandidateV {
            path: self.path@,
            readonly: self.readonly,
            content: self.content@,
            ignored: self.ignored,
        }
    }
}

/// The observed entries of the candidates that are not ignored, in
/// order: permission flag (0 readonly, 1 writable), content hash, path.
pub open spec fn obs_list_spec(cs: Seq<CandidateV>) -> Seq<(u8, Seq<u8>, Seq<u8>)>
    decreases cs.len(),
{
    if cs.len() == 0 {
        Seq::empty()
    } else {
        let rest = obs_list_spec(cs.skip(1));
        if cs[0].ignored {
            rest
        } else {
            seq![
                (
                    if cs[0].readonly {
                        0u8
                    } else {
                        1u8
                    },
                    sha1_of(cs[0].content),
                    cs[0].path,
                ),
            ] + rest
        }
    }
}

/// Whether a path falls under one scope path: the scope is the whole
/// repository (empty), the path itself, or a directory above it.
pub open spec fn scope_match(sp: Seq<u8>, p: Seq<u8>) -> bool {
    sp.len() == 0 || p == sp || is_prefix(sp + seq![47u8], p)
}

/// Whether a path falls under any of the scope paths.
pub open spec fn in_scope(scope: Seq<Seq<u8>>, p: Seq<u8>) -> bool {
    exists|i: int| 0 <= i < scope.len() && scope_match(#[trigger] scope[i], p)
}

/// The blob entries whose path falls under the scope; entries outside
/// it are left untouched and never reported.
pub open spec fn restrict_spec(entries: Seq<(Seq<u8>, Seq<u8>)>, scope: Seq<Seq<u8>>) -> Seq<
    (Seq<u8>, Seq<u8>),
>
    decreases entries.len(),
{
    if entries.len() == 0 {
        Seq::empty()
    } else {
        let rest = restrict_spec(entries.skip(1), scope);
        if in_scope(scope, entries[0].0) {
            seq![entries[0]] + rest
        } else {
            rest
        }
    }
}

/// Classify the observed entries against the previous blob set: a path
/// the set lacks is New; one present with another hash is Mod; one
/// present and unchanged is dropped silently.  Matched paths leave the
/// set; what remains was deleted.
pub open spec fn classify_spec(
    obs: Seq<(u8, Seq<u8>, Seq<u8>)>,
    prev: Seq<(Seq<u8>, Seq<u8>)>,
) -> (Seq<IndexEntryV>, Seq<(Seq<u8>, Seq<u8>)>)
    decreases obs.len(),
{
    if obs.len() == 0 {
        (Seq::empty(), prev)
    } else {
        let (perm, h, p) = obs[0];
        if !crate::bytemap::has_key(prev, p) {
            let r = classify_spec(obs.skip(1), prev);
            (
                seq![IndexEntryV { perm, hash: h, path: p, change: ChangeType::New }] + r.0,
                r.1,
            )
        } else if crate::bytemap::map_of(prev)[p] != h {
            let r = classify_spec(obs.skip(1), crate::bytemap::remove_spec(prev, p));
            (
                seq![IndexEntryV { perm, hash: h, path: p, change: ChangeType::Mod }] + r.0,
                r.1,
            )
        } else {
            classify_spec(obs.skip(1), crate::bytemap::remove_spec(prev, p))
        }
    }
}

/// Deletion entries for the blob set entries that no candidate
/// matched, in set order; the permission flag of a deleted file is
/// recorded as writable.
pub open spec fn dels_spec(prev: Seq<(Seq<u8>, Seq<u8>)>) -> Seq<IndexEntryV>
    decreases prev.len(),
{
    if prev.len() == 0 {
        Seq::empty()
    } else {
        seq![
            IndexEntryV {
                perm: 1u8,
                hash: prev[0].1,
                path: prev[0].0,
                change: ChangeType::Del,
            },
        ] + dels_spec(prev.skip(1))
    }
}

/// The full staging index an observe step produces from its observed
/// entries and the (already restricted) previous blob set.
pub open spec fn observe_entries_spec(
    obs: Seq<(u8, Seq<u8>, Seq<u8>)>,
    prev: Seq<(Seq<u8>, Seq<u8>)>,
) -> Seq<IndexEntryV> {
    let r = classify_spec(obs, prev);
    r.0 + dels_spec(r.1)
}

/// What an observe step leaves in the staging index: with no previous
/// commit every candidate is New; otherwise the candidates are
/// classified against the previous commit's blob set restricted to the
/// requested scope.
pub open spec fn spec_observe(
    commits: Map<Seq<u8>, Seq<u8>>,
    dirs: Map<Seq<u8>, Seq<u8>>,
    dirs_count: nat,
    head: Seq<u8>,
    cands: Seq<CandidateV>,
    scope: Seq<Seq<u8>>,
) -> Result<Seq<IndexEntryV>, GyatError> {
    let obs = obs_list_spec(cands);
    match spec_root_tree_hash(commits, head, None) {
        Err(e) => Err(e),
        Ok(None) => Ok(observe_entries_spec(obs, Seq::empty())),
        Ok(Some(root_hex)) => {
            if !(is_valid_hex(root_hex) && hex_decode(root_hex).len() >= 20) {
                Err(GyatError::HashDecodeError)
            } else {
                match flatten_tree_spec(
                    dirs,
                    hex_encode(hex_decode(root_hex).take(20)),
                    Seq::<u8>::empty(),
                    Seq::<(Seq<u8>, Seq<u8>)>::empty(),
                    dirs_count,
                ) {
                    Err(e) => Err(e),
                    Ok(blobs) => Ok(observe_entries_spec(obs, restrict_spec(blobs, scope))),
                }
            }
        },
    }
}

/// Decide whether a path falls under any scope path.
fn in_scope_exec(scope: &Vec<Vec<u8>>, p: &Vec<u8>) -> (r: bool)
    ensures
        r == in_scope(scope@.map_values(|s: Vec<u8>| s@), p@),
{
    let ghost sv = scope@.map_values(|s: Vec<u8>| s@);
    let mut i: usize = 0;
    while i < scope.len()
        invariant
            i <= scope.len(),
            sv == scope@.map_values(|s: Vec<u8>| s@),
            forall|j: int| 0 <= j < i ==> !scope_match(#[trigger] sv[j], p@),
        decreases scope.len() - i,
    {
        proof {
            assert(sv[i as int] == scope@[i as int]@);
        }
        if scope[i].len() == 0 {
            return true;
        }
        if crate::bytes::bytes_eq(p, &scope[i]) {
            return true;
        }
        let mut pre = crate::bytes::copy_bytes(&scope[i]);
        pre.push(47);
        proof {
            assert(pre@ =~= sv[i as int] + seq![47u8]);
        }
        if crate::bytes::starts_with(p, &pre) {
            return true;
        }
        i = i + 1;
    }
    proof {
        if in_scope(sv, p@) {
            let j = choose|j: int| 0 <= j < sv.len() && scope_match(sv[j], p@);
            assert(!scope_match(sv[j], p@));
        }
    }
    false
}

/// Take a look at the working tree for changes: hash every candidate
/// the ignore predicate admits, classify against the previous commit's
/// blob set restricted to the requested scope, and overwrite the
/// staging index with the classified list.  On failure the index is
/// left empty, as the step truncates it before writing.
pub fn observe(repo: &mut Repo, candidates: &Vec<Candidate>, scope: &Vec<Vec<u8>>) -> (r: Result<
    (),
    GyatError,
>)
    requires
        old(repo).wf(),
    ensures
        final(repo).wf(),
        final(repo).store.files@ == old(repo).store.files@,
        final(repo).store.dirs@ == old(repo).store.dirs@,
        final(repo).store.commits@ == old(repo).store.commits@,
        final(repo).head@ == old(repo).head@,
        ({
            let res = spec_observe(
                old(repo).store.commits.as_map(),
                old(repo).store.dirs.as_map(),
                old(repo).store.dirs@.len(),
                old(repo).head@,
                candidates@.map_values(|c: Candidate| c@),
                scope@.map_values(|s: Vec<u8>| s@),
            );
            match r {
                Ok(_) => res matches Ok(es) && final(repo).index@.map_values(
                    |e: IndexEntry| e@,
                ) == es,
                Err(e) => res matches Err(e2) && e == e2 && final(repo).index@.len() == 0,
            }
        }),
{
    let ghost cv = candidates@.map_values(|c: Candidate| c@);
    let ghost sv = scope@.map_values(|s: Vec<u8>| s@);
    repo.index = Vec::new();
    // hash every candidate that is not ignored
    let mut obs: Vec<(u8, Vec<u8>, Vec<u8>)> = Vec::new();
    let mut i: usize = 0;
    proof {
        assert(cv.skip(0) =~= cv);
        assert(obs@.map_values(|o: (u8, Vec<u8>, Vec<u8>)| (o.0, o.1@, o.2@)) =~= Seq::<
            (u8, Seq<u8>, Seq<u8>),
        >::empty());
    }
    while i < candidates.len()
        invariant
            i <= candidates.len(),
            cv == candidates@.map_values(|c: Candidate| c@),
            obs_list_spec(cv) == obs@.map_values(|o: (u8, Vec<u8>, Vec<u8>)| (o.0, o.1@, o.2@))
                + obs_list_spec(cv.skip(i as int)),
        decreases candidates.len() - i,
    {
        proof {
            assert(cv.skip(i as int)[0] == cv[i as int]);
            assert(cv[i as int] == candidates@[i as int]@);
            assert(cv.skip(i as int).skip(1) =~= cv.skip(i + 1));
        }
        if !candidates[i].ignored {
            let perm: u8 = if candidates[i].readonly {
                0
            } else {
                1
            };
            let h = crate::hash::get_sha1_bytes(&candidates[i].content);
            let p = crate::bytes::copy_bytes(&candidates[i].path);
            let ghost ov = obs@.map_values(|o: (u8, Vec<u8>, Vec<u8>)| (o.0, o.1@, o.2@));
            obs.push((perm, h, p));
            proof {
                let entry = (
                    if cv[i as int].readonly {
                        0u8
                    } else {
                        1u8
                    },
                    sha1_of(cv[i as int].content),
                    cv[i as int].path,
                );
                assert(obs@.map_values(|o: (u8, Vec<u8>, Vec<u8>)| (o.0, o.1@, o.2@)) =~= ov.push(
                    entry,
                ));
                assert(ov.push(entry) + obs_list_spec(cv.skip(i + 1)) =~= ov + (seq![entry]
                    + obs_list_spec(cv.skip(i + 1))));
            }
        }
        i = i + 1;
    }
    proof {
        assert(cv.skip(i as int).len() == 0);
        assert(obs@.map_values(|o: (u8, Vec<u8>, Vec<u8>)| (o.0, o.1@, o.2@)) + Seq::<
            (u8, Seq<u8>, Seq<u8>),
        >::empty() =~= obs@.map_values(|o: (u8, Vec<u8>, Vec<u8>)| (o.0, o.1@, o.2@)));
    }
    // the previous blob set, restricted to the scope
    let mut prev = ByteMap::new();
    match get_root_tree_hash(repo, None) {
        Err(e) => {
            return Err(e);
        },
        Ok(None) => {},
        Ok(Some(root_hex)) => {
            let root = match crate::hash::from_string(&root_hex) {
                Err(e) => {
                    return Err(e);
                },
                Ok(h) => h,
            };
            let blobs = match crate::objects::get_blobs_from_root(&repo.store, &root) {
                Err(e) => {
                    return Err(e);
                },
                Ok(b) => b,
            };
            let ghost bv = blobs@;
            let mut j: usize = 0;
            proof {
                assert(bv.skip(0) =~= bv);
                assert(prev@ =~= Seq::<(Seq<u8>, Seq<u8>)>::empty());
                assert(restrict_spec(bv, sv) == prev@ + restrict_spec(bv.skip(0), sv));
            }
            while j < blobs.len()
                invariant
                    j <= bv.len(),
                    blobs.wf(),
                    prev.wf(),
                    bv == blobs@,
                    sv == scope@.map_values(|s: Vec<u8>| s@),
                    restrict_spec(bv, sv) == prev@ + restrict_spec(bv.skip(j as int), sv),
                    forall|x: Seq<u8>|
                        crate::bytemap::has_key(prev@, x) ==> crate::bytemap::has_key(
                            bv.take(j as int),
                            x,
                        ),
                decreases bv.len() - j,
            {
                proof {
                    assert(bv.skip(j as int)[0] == bv[j as int]);
                    assert(bv.skip(j as int).skip(1) =~= bv.skip(j + 1));
                }
                let path = blobs.key_at(j);
                let ghost pprev = prev@;
                if in_scope_exec(scope, path) {
                    proof {
                        if crate::bytemap::has_key(pprev, bv[j as int].0) {
                            let m = choose|m: int|
                                0 <= m < pprev.len() && pprev[m].0 == bv[j as int].0;
                            assert(crate::bytemap::has_key(bv.take(j as int), bv[j as int].0));
                            let w = choose|w: int|
                                0 <= w < bv.take(j as int).len() && bv.take(j as int)[w].0
                                    == bv[j as int].0;
                            assert(bv[w].0 == bv[j as int].0);
                        }
                    }
                    let p2 = crate::bytes::copy_bytes(path);
                    let h2 = crate::bytes::copy_bytes(blobs.value_at(j));
                    prev.push_entry(p2, h2);
                    proof {
                        assert(prev@ =~= pprev.push(bv[j as int]));
                        assert forall|x: Seq<u8>|
                            crate::bytemap::has_key(prev@, x) implies crate::bytemap::has_key(
                            bv.take(j + 1 as int),
                            x,
                        ) by {
                            let m = choose|m: int| 0 <= m < prev@.len() && prev@[m].0 == x;
                            if m < pprev.len() {
                                assert(crate::bytemap::has_key(pprev, x));
                                let w = choose|w: int|
                                    0 <= w < bv.take(j as int).len() && bv.take(j as int)[w].0
                                        == x;
                                assert(bv.take(j + 1 as int)[w].0 == x);
                            } else {
                                assert(prev@[m] == bv[j as int]);
                                assert(bv.take(j + 1 as int)[j as int].0 == x);
                            }
                        }
                        assert(pprev.push(bv[j as int]) + restrict_spec(bv.skip(j + 1), sv)
                            =~= pprev + (seq![bv[j as int]] + restrict_spec(
                            bv.skip(j + 1),
                            sv,
                        )));
                    }
                } else {
                    proof {
                        assert forall|x: Seq<u8>|
                            crate::bytemap::has_key(prev@, x) implies crate::bytemap::has_key(
                            bv.take(j + 1 as int),
                            x,
                        ) by {
                            let w = choose|w: int|
                                0 <= w < bv.take(j as int).len() && bv.take(j as int)[w].0 == x;
                            assert(bv.take(j + 1 as int)[w].0 == x);
                        }
                    }
                }
                j = j + 1;
            }
            proof {
                assert(bv.skip(j as int).len() == 0);
                assert(prev@ + Seq::<(Seq<u8>, Seq<u8>)>::empty() =~= prev@);
            }
        },
    }
    // classify the observed entries against it
    let ghost obs_v = obs@.map_values(|o: (u8, Vec<u8>, Vec<u8>)| (o.0, o.1@, o.2@));
    let ghost prev0 = prev@;
    let mut entries: Vec<IndexEntry> = Vec::new();
    let mut k: usize = 0;
    proof {
        assert(obs_v.skip(0) =~= obs_v);
        assert(entries@.map_values(|e: IndexEntry| e@) =~= Seq::<IndexEntryV>::empty());
    }
    while k < obs.len()
        invariant
            k <= obs.len(),
            prev.wf(),
            obs_v == obs@.map_values(|o: (u8, Vec<u8>, Vec<u8>)| (o.0, o.1@, o.2@)),
            classify_spec(obs_v, prev0) == {
                let r = classify_spec(obs_v.skip(k as int), prev@);
                (entries@.map_values(|e: IndexEntry| e@) + r.0, r.1)
            },
        decreases obs.len() - k,
    {
        proof {
            assert(obs_v.skip(k as int)[0] == obs_v[k as int]);
            assert(obs_v[k as int] == (obs@[k as int].0, obs@[k as int].1@, obs@[k as int].2@));
            assert(obs_v.skip(k as int).skip(1) =~= obs_v.skip(k + 1));
        }
        let ghost ev = entries@.map_values(|e: IndexEntry| e@);
        let found = match prev.get(&obs[k].2) {
            Some(ph) => Some(crate::bytes::bytes_eq(ph, &obs[k].1)),
            None => None,
        };
        match found {
            None => {
                let h2 = crate::bytes::copy_bytes(&obs[k].1);
                let p2 = crate::bytes::copy_bytes(&obs[k].2);
                let e = IndexEntry { perm: obs[k].0, hash: h2, path: p2, change: ChangeType::New };
                proof {
                    crate::bytemap::lemma_map_of_contains(prev@, obs_v[k as int].2);
                }
                entries.push(e);
                proof {
                    assert(entries@.map_values(|e: IndexEntry| e@) =~= ev.push(
                        IndexEntryV {
                            perm: obs_v[k as int].0,
                            hash: obs_v[k as int].1,
                            path: obs_v[k as int].2,
                            change: ChangeType::New,
                        },
                    ));
                    assert(forall|x: IndexEntryV, r0: Seq<IndexEntryV>|
                        ev.push(x) + r0 =~= ev + (seq![x] + r0));
                }
            },
            Some(same) => {
                proof {
                    crate::bytemap::lemma_map_of_contains(prev@, obs_v[k as int].2);
                }
                if !same {
                    let h2 = crate::bytes::copy_bytes(&obs[k].1);
                    let p2 = crate::bytes::copy_bytes(&obs[k].2);
                    let e = IndexEntry {
                        perm: obs[k].0,
                        hash: h2,
                        path: p2,
                        change: ChangeType::Mod,
                    };
                    entries.push(e);
                    proof {
                        assert(entries@.map_values(|e: IndexEntry| e@) =~= ev.push(
                            IndexEntryV {
                                perm: obs_v[k as int].0,
                                hash: obs_v[k as int].1,
                                path: obs_v[k as int].2,
                                change: ChangeType::Mod,
                            },
                        ));
                        assert(forall|x: IndexEntryV, r0: Seq<IndexEntryV>|
                            ev.push(x) + r0 =~= ev + (seq![x] + r0));
                    }
                }
                prev.remove(&obs[k].2);
            },
        }
        k = k + 1;
    }
    proof {
        assert(obs_v.skip(k as int).len() == 0);
        assert(classify_spec(obs_v.skip(k as int), prev@) == (
            Seq::<IndexEntryV>::empty(),
            prev@,
        ));
        assert(entries@.map_values(|e: IndexEntry| e@) + Seq::<IndexEntryV>::empty()
            =~= entries@.map_values(|e: IndexEntry| e@));
    }
    // what is left of the previous set was deleted
    let ghost class1 = classify_spec(obs_v, prev0);
    let ghost remv = prev@;
    let mut d: usize = 0;
    proof {
        assert(remv.skip(0) =~= remv);
        let ev0 = entries@.map_values(|e: IndexEntry| e@);
        assert(class1.0 == ev0);
        assert(class1.1 == remv);
        assert(ev0.skip(class1.0.len() as int) =~= Seq::<IndexEntryV>::empty());
        assert(ev0.take(class1.0.len() as int) =~= ev0);
        assert(dels_spec(remv) =~= ev0.skip(class1.0.len() as int) + dels_spec(
            remv.skip(0),
        ));
    }
    while d < prev.len()
        invariant
            d <= remv.len(),
            prev.wf(),
            remv == prev@,
            dels_spec(remv) == entries@.map_values(|e: IndexEntry| e@).skip(
                class1.0.len() as int,
            ) + dels_spec(remv.skip(d as int)),
            entries@.map_values(|e: IndexEntry| e@).take(class1.0.len() as int) == class1.0,
            class1.0.len() <= entries@.len(),
        decreases remv.len() - d,
    {
        proof {
            assert(remv.skip(d as int)[0] == remv[d as int]);
            assert(remv.skip(d as int).skip(1) =~= remv.skip(d + 1));
        }
        let h2 = crate::bytes::copy_bytes(prev.value_at(d));
        let p2 = crate::bytes::copy_bytes(prev.key_at(d));
        let ghost ev = entries@.map_values(|e: IndexEntry| e@);
        entries.push(IndexEntry { perm: 1, hash: h2, path: p2, change: ChangeType::Del });
        proof {
            let x = IndexEntryV {
                perm: 1u8,
                hash: remv[d as int].1,
                path: remv[d as int].0,
                change: ChangeType::Del,
            };
            assert(entries@.map_values(|e: IndexEntry| e@) =~= ev.push(x));
            assert(ev.push(x).take(class1.0.len() as int) =~= ev.take(class1.0.len() as int));
            assert(ev.push(x).skip(class1.0.len() as int) =~= ev.skip(class1.0.len() as int)
                + seq![x]);
            assert(ev.skip(class1.0.len() as int) + seq![x] + dels_spec(remv.skip(d + 1)) =~= ev.skip(
                class1.0.len() as int,
            ) + (seq![x] + dels_spec(remv.skip(d + 1))));
        }
        d = d + 1;
    }
    proof {
        assert(remv.skip(d as int).len() == 0);
        assert(entries@.map_values(|e: IndexEntry| e@).skip(class1.0.len() as int) + Seq::<
            IndexEntryV,
        >::empty() =~= entries@.map_values(|e: IndexEntry| e@).skip(class1.0.len() as int));
        assert(entries@.map_values(|e: IndexEntry| e@) =~= entries@.map_values(
            |e: IndexEntry| e@,
        ).take(class1.0.len() as int) + entries@.map_values(|e: IndexEntry| e@).skip(
            class1.0.len() as int,
        ));
    }
    repo.index = entries;
    Ok(())
}

/// Relies on chrono's Local::now: the current local time, formatted
/// like `Mon Jan 01 12:00:00 2024`.  The result depends on the clock
/// and the machine's time zone; the one thing promised of it is that
/// this fixed format — English day and month names, numbers, spaces
/// and colons — never emits a line break.
#[verifier::external_body]
pub fn current_timestamp() -> (r: Vec<u8>)
    ensures
        !crate::bytes::has_byte(r@, 10),
{
    chrono::Local::now().format("%a %b %d %H:%M:%S %Y").to_string().into_bytes()
}


/// The value of a freshly created directory tree.
pub open spec fn fresh_tree() -> crate::dirtree::TreeV {
    crate::dirtree::TreeV {
        nodes: seq![
            crate::dirtree::TreeNodeV {
                children: Seq::empty(),
                filename: seq![46u8],
                parent: None,
            },
        ],
        size: 1,
        frees: Seq::empty(),
    }
}

/// Seeding the commit tree from the staging index: New and Mod paths
/// are added to the tree, Mod and Del paths leave the previous blob
/// set.
pub open spec fn seed_tree_spec(
    t: crate::dirtree::TreeV,
    bm: Seq<(Seq<u8>, Seq<u8>)>,
    entries: Seq<IndexEntryV>,
) -> (crate::dirtree::TreeV, Seq<(Seq<u8>, Seq<u8>)>)
    decreases entries.len(),
{
    if entries.len() == 0 {
        (t, bm)
    } else {
        let e = entries[0];
        match e.change {
            ChangeType::New => seed_tree_spec(
                crate::dirtree::spec_add_path(t, e.path).0,
                bm,
                entries.skip(1),
            ),
            ChangeType::Mod => seed_tree_spec(
                crate::dirtree::spec_add_path(t, e.path).0,
                crate::bytemap::remove_spec(bm, e.path),
                entries.skip(1),
            ),
            ChangeType::Del => seed_tree_spec(
                t,
                crate::bytemap::remove_spec(bm, e.path),
                entries.skip(1),
            ),
        }
    }
}

/// The unchanged files of the previous commit enter the tree as
/// implicit leaves.
pub open spec fn seed_rest_spec(
    t: crate::dirtree::TreeV,
    bm: Seq<(Seq<u8>, Seq<u8>)>,
) -> crate::dirtree::TreeV
    decreases bm.len(),
{
    if bm.len() == 0 {
        t
    } else {
        seed_rest_spec(crate::dirtree::spec_add_path(t, bm[0].0).0, bm.skip(1))
    }
}

/// With no previous commit, every index entry's path enters the tree.
pub open spec fn seed_all_spec(
    t: crate::dirtree::TreeV,
    entries: Seq<IndexEntryV>,
) -> crate::dirtree::TreeV
    decreases entries.len(),
{
    if entries.len() == 0 {
        t
    } else {
        seed_all_spec(crate::dirtree::spec_add_path(t, entries[0].path).0, entries.skip(1))
    }
}

/// The root hash a seeded tree serializes to, with the store
/// directories it leaves behind.
pub open spec fn spec_serialize(
    files: Map<Seq<u8>, Seq<u8>>,
    dirs: Map<Seq<u8>, Seq<u8>>,
    wt: Seq<crate::fs::WorkFileV>,
    t: crate::dirtree::TreeV,
) -> Result<(Map<Seq<u8>, Seq<u8>>, Map<Seq<u8>, Seq<u8>>, Seq<u8>), GyatError> {
    crate::dirtree::ser_tree_spec(
        files,
        dirs,
        wt,
        crate::canon::canon_spec(
            crate::dirtree::spec_leaves(t).map_values(|p: Seq<u8>| split_spec(p, 47)),
        ),
        Seq::<Seq<u8>>::empty(),
    )
}

/// What a commit step does: nothing on an empty index; otherwise the
/// commit tree is seeded from the index (absorbing the parent commit's
/// unchanged files), serialized into the store, and a commit record is
/// written; HEAD moves to it and the index is cleared.  A message or
/// date holding a newline would corrupt the line-oriented record and
/// is rejected outright.
pub open spec fn spec_track(
    files: Map<Seq<u8>, Seq<u8>>,
    dirs: Map<Seq<u8>, Seq<u8>>,
    dirs_count: nat,
    commits: Seq<(Seq<u8>, Seq<u8>)>,
    head: Seq<u8>,
    index: Seq<IndexEntryV>,
    wt: Seq<crate::fs::WorkFileV>,
    message: Option<Seq<u8>>,
    date: Seq<u8>,
) -> Result<
    Option<(Map<Seq<u8>, Seq<u8>>, Map<Seq<u8>, Seq<u8>>, Seq<(Seq<u8>, Seq<u8>)>, Seq<u8>)>,
    GyatError,
> {
    let msg = match message {
        Some(m) => m,
        None => Seq::<u8>::empty(),
    };
    if crate::bytes::has_byte(msg, 10) || crate::bytes::has_byte(date, 10) {
        Err(GyatError::InvalidArgument)
    } else if index.len() == 0 {
        Ok(None)
    } else {
        let ph = trim_spec(head);
        let seeded: Result<crate::dirtree::TreeV, GyatError> = if ph.len() == 0 {
            Ok(seed_all_spec(fresh_tree(), index))
        } else if !(is_valid_hex(ph) && hex_decode(ph).len() >= 20) {
            Err(GyatError::HashDecodeError)
        } else {
            let key = hex_encode(hex_decode(ph).take(20));
            if !crate::bytemap::map_of(commits).contains_key(key) {
                Err(GyatError::NotFound)
            } else {
                match crate::objects::parse_commit_spec(crate::bytemap::map_of(commits)[key]) {
                    Err(e) => Err(e),
                    Ok(co) => match flatten_tree_spec(
                        dirs,
                        hex_encode(co.root),
                        Seq::<u8>::empty(),
                        Seq::<(Seq<u8>, Seq<u8>)>::empty(),
                        dirs_count,
                    ) {
                        Err(e) => Err(e),
                        Ok(blobs) => {
                            let sd = seed_tree_spec(fresh_tree(), blobs, index);
                            Ok(seed_rest_spec(sd.0, sd.1))
                        },
                    },
                }
            }
        };
        match seeded {
            Err(e) => Err(e),
            Ok(t2) => match spec_serialize(files, dirs, wt, t2) {
                Err(e) => Err(e),
                Ok((f2, d2, root)) => {
                    let content = crate::objects::encode_commit_spec(
                        if ph.len() == 0 {
                            None
                        } else {
                            Some(ph)
                        },
                        hex_encode(root),
                        msg,
                        date,
                        index,
                    );
                    let chash = hex_encode(sha1_of(content));
                    Ok(Some((f2, d2, crate::bytemap::set_spec(commits, chash, content), chash)))
                },
            },
        }
    }
}

/// Commit the observed changes: seed the commit tree from the staging
/// index and the parent commit's blob set, serialize it, write the
/// commit record, move HEAD and clear the index.  An empty index
/// commits nothing.  The recorded date is taken as an argument so the
/// whole step is a function of its inputs; `track_now` supplies the
/// clock.
pub fn track(
    repo: &mut Repo,
    worktree: &Vec<WorkFile>,
    message: &Option<Vec<u8>>,
    date: &Vec<u8>,
) -> (r: Result<Option<Vec<u8>>, GyatError>)
    requires
        old(repo).wf(),
    ensures
        final(repo).wf(),
        ({
            let res = spec_track(
                old(repo).store.files.as_map(),
                old(repo).store.dirs.as_map(),
                old(repo).store.dirs@.len(),
                old(repo).store.commits@,
                old(repo).head@,
                old(repo).index@.map_values(|e: IndexEntry| e@),
                worktree@.map_values(|w: WorkFile| w@),
                match message {
                    Some(m) => Some(m@),
                    None => None,
                },
                date@,
            );
            match r {
                Ok(None) => res == Ok::<
                    Option<(Map<Seq<u8>, Seq<u8>>, Map<Seq<u8>, Seq<u8>>, Seq<(Seq<u8>, Seq<u8>)>, Seq<u8>)>,
                    GyatError,
                >(None) && final(repo).store.files@ == old(repo).store.files@
                    && final(repo).store.dirs@ == old(repo).store.dirs@
                    && final(repo).store.commits@ == old(repo).store.commits@
                    && final(repo).head@ == old(repo).head@
                    && final(repo).index@ == old(repo).index@,
                Ok(Some(h)) => res matches Ok(Some(out)) && final(repo).store.files.as_map()
                    == out.0 && final(repo).store.dirs.as_map() == out.1
                    && final(repo).store.commits@ == out.2 && final(repo).head@ == out.3 && h@
                    == out.3 && final(repo).index@.len() == 0,
                Err(e) => res matches Err(e2) && e == e2
                    && final(repo).store.commits@ == old(repo).store.commits@
                    && final(repo).head@ == old(repo).head@
                    && final(repo).index@ == old(repo).index@,
            }
        }),
{
    let ghost iv = old(repo).index@.map_values(|e: IndexEntry| e@);
    let ghost wv = worktree@.map_values(|w: WorkFile| w@);
    let msg_check = match message {
        Some(m) => crate::bytes::contains_byte(m, 10),
        None => false,
    };
    if msg_check || crate::bytes::contains_byte(date, 10) {
        return Err(GyatError::InvalidArgument);
    }
    if repo.index.len() == 0 {
        return Ok(None);
    }
    let ph = crate::bytes::trim(&repo.head);
    let mut dtree = crate::dirtree::Tree::new();
    proof {
        assert(dtree@ =~~= fresh_tree());
    }
    if ph.len() == 0 {
        // no parent: every index entry's path enters the tree
        let mut i: usize = 0;
        proof {
            assert(iv.skip(0) =~= iv);
        }
        while i < repo.index.len()
            invariant
                i <= repo.index@.len(),
                repo.wf(),
                dtree.wf(),
                repo == old(repo),
                iv == repo.index@.map_values(|e: IndexEntry| e@),
                seed_all_spec(fresh_tree(), iv) == seed_all_spec(dtree@, iv.skip(i as int)),
            decreases repo.index@.len() - i,
        {
            proof {
                assert(iv.skip(i as int)[0] == iv[i as int]);
                assert(iv[i as int] == repo.index@[i as int]@);
                assert(iv.skip(i as int).skip(1) =~= iv.skip(i + 1));
            }
            dtree.add_path(&repo.index[i].path);
            i = i + 1;
        }
        proof {
            assert(iv.skip(i as int).len() == 0);
        }
    } else {
        // a parent exists: classify against its blob set
        let pc = match crate::hash::from_string(&ph) {
            Err(e) => {
                return Err(e);
            },
            Ok(h) => h,
        };
        let co = match crate::objects::read_commit_content(&repo.store, &pc) {
            Err(e) => {
                return Err(e);
            },
            Ok(c) => c,
        };
        let mut prev_blobs = match crate::objects::get_blobs_from_root(&repo.store, &co.root) {
            Err(e) => {
                return Err(e);
            },
            Ok(b) => b,
        };
        let ghost blobs0 = prev_blobs@;
        let mut i: usize = 0;
        proof {
            assert(iv.skip(0) =~= iv);
        }
        while i < repo.index.len()
            invariant
                i <= repo.index@.len(),
                repo.wf(),
                dtree.wf(),
                prev_blobs.wf(),
                repo == old(repo),
                iv == repo.index@.map_values(|e: IndexEntry| e@),
                seed_tree_spec(fresh_tree(), blobs0, iv) == seed_tree_spec(
                    dtree@,
                    prev_blobs@,
                    iv.skip(i as int),
                ),
            decreases repo.index@.len() - i,
        {
            proof {
                assert(iv.skip(i as int)[0] == iv[i as int]);
                assert(iv[i as int] == repo.index@[i as int]@);
                assert(iv.skip(i as int).skip(1) =~= iv.skip(i + 1));
            }
            match repo.index[i].change {
                ChangeType::New => {
                    dtree.add_path(&repo.index[i].path);
                },
                ChangeType::Mod => {
                    dtree.add_path(&repo.index[i].path);
                    prev_blobs.remove(&repo.index[i].path);
                },
                ChangeType::Del => {
                    prev_blobs.remove(&repo.index[i].path);
                },
            }
            i = i + 1;
        }
        proof {
            assert(iv.skip(i as int).len() == 0);
        }
        let ghost bm1 = prev_blobs@;
        let mut j: usize = 0;
        proof {
            assert(bm1.skip(0) =~= bm1);
        }
        while j < prev_blobs.len()
            invariant
                j <= bm1.len(),
                dtree.wf(),
                prev_blobs.wf(),
                bm1 == prev_blobs@,
                seed_rest_spec(seed_tree_spec(fresh_tree(), blobs0, iv).0, bm1)
                    == seed_rest_spec(dtree@, bm1.skip(j as int)),
            decreases bm1.len() - j,
        {
            proof {
                assert(bm1.skip(j as int)[0] == bm1[j as int]);
                assert(bm1.skip(j as int).skip(1) =~= bm1.skip(j + 1));
            }
            let p = crate::bytes::copy_bytes(prev_blobs.key_at(j));
            dtree.add_path(&p);
            j = j + 1;
        }
        proof {
            assert(bm1.skip(j as int).len() == 0);
        }
    }
    // serialize the seeded tree into blob and tree objects
    let root_hash = match dtree.to_object_file(&mut repo.store, worktree) {
        Err(e) => {
            return Err(e);
        },
        Ok(h) => h,
    };
    let root_hex = crate::hash::to_string(&root_hash);
    let parent_hex: Option<Vec<u8>> = if ph.len() == 0 {
        None
    } else {
        Some(ph)
    };
    let msg: Vec<u8> = match message {
        Some(m) => crate::bytes::copy_bytes(m),
        None => Vec::new(),
    };
    let content = crate::objects::format_commit_content(
        &parent_hex,
        &root_hex,
        &msg,
        date,
        &repo.index,
    );
    let chash = repo.store.write_commit(&content);
    let head2 = crate::bytes::copy_bytes(&chash);
    repo.head = head2;
    repo.index = Vec::new();
    Ok(Some(chash))
}

/// A date the line-oriented commit record can carry: one that holds
/// no line break.  `current_timestamp` only ever produces such dates.
pub open spec fn is_date(date: Seq<u8>) -> bool {
    !crate::bytes::has_byte(date, 10)
}

/// Commit with the current local time as the recorded date.  The clock
/// decides the date, so the commit record and hash depend on when the
/// call runs; everything else follows `track`.
pub fn track_now(repo: &mut Repo, worktree: &Vec<WorkFile>, message: &Option<Vec<u8>>) -> (r:
    Result<Option<Vec<u8>>, GyatError>)
    requires
        old(repo).wf(),
    ensures
        final(repo).wf(),
        exists|date: Seq<u8>|
            #[trigger] is_date(date) && {
                let res = spec_track(
                    old(repo).store.files.as_map(),
                    old(repo).store.dirs.as_map(),
                    old(repo).store.dirs@.len(),
                    old(repo).store.commits@,
                    old(repo).head@,
                    old(repo).index@.map_values(|e: IndexEntry| e@),
                    worktree@.map_values(|w: WorkFile| w@),
                    match message {
                        Some(m) => Some(m@),
                        None => None,
                    },
                    date,
                );
                match r {
                    Ok(None) => res == Ok::<
                        Option<(Map<Seq<u8>, Seq<u8>>, Map<Seq<u8>, Seq<u8>>, Seq<(Seq<u8>, Seq<u8>)>, Seq<u8>)>,
                        GyatError,
                    >(None) && final(repo).store.files@ == old(repo).store.files@
                        && final(repo).store.dirs@ == old(repo).store.dirs@
                        && final(repo).store.commits@ == old(repo).store.commits@
                        && final(repo).head@ == old(repo).head@
                        && final(repo).index@ == old(repo).index@,
                    Ok(Some(h)) => res matches Ok(Some(out)) && final(repo).store.files.as_map()
                        == out.0 && final(repo).store.dirs.as_map() == out.1
                        && final(repo).store.commits@ == out.2
                        && final(repo).head@ == out.3 && h@ == out.3
                        && final(repo).index@.len() == 0,
                    Err(e) => res matches Err(e2) && e == e2
                        && final(repo).store.commits@ == old(repo).store.commits@
                        && final(repo).head@ == old(repo).head@
                        && final(repo).index@ == old(repo).index@,
                }
            },
{
    let date = current_timestamp();
    let r = track(repo, worktree, message, &date);
    proof {
        let ghost dv = date@;
        assert(is_date(dv));
        assert(spec_track(
            old(repo).store.files.as_map(),
            old(repo).store.dirs.as_map(),
            old(repo).store.dirs@.len(),
            old(repo).store.commits@,
            old(repo).head@,
            old(repo).index@.map_values(|e: IndexEntry| e@),
            worktree@.map_values(|w: WorkFile| w@),
            match message {
                Some(m) => Some(m@),
                None => None,
            },
            dv,
        ) == spec_track(
            old(repo).store.files.as_map(),
            old(repo).store.dirs.as_map(),
            old(repo).store.dirs@.len(),
            old(repo).store.commits@,
            old(repo).head@,
            old(repo).index@.map_values(|e: IndexEntry| e@),
            worktree@.map_values(|w: WorkFile| w@),
            match message {
                Some(m) => Some(m@),
                None => None,
            },
            date@,
        ));
    }
    r
}

/// What the log walk prints: HEAD's hash, then each parent hash read
/// from the first line of the commit above it, for at most `lines`
/// entries; a missing or short parent field ends the walk.
pub open spec fn spec_wood(
    commits: Map<Seq<u8>, Seq<u8>>,
    cur: Seq<u8>,
    remaining: nat,
    acc: Seq<Seq<u8>>,
) -> Result<Seq<Seq<u8>>, GyatError>
    decreases remaining,
{
    if remaining == 0 {
        Ok(acc)
    } else if !commits.contains_key(cur) {
        Err(GyatError::IoError)
    } else {
        let lines = split_spec(commits[cur], 10);
        let parts = split_spec(lines[0], 58);
        if parts.len() < 2 {
            Err(GyatError::FormatError)
        } else {
            let nxt = trim_spec(parts[1]);
            if nxt.len() == 0 || nxt.len() < 20 {
                Ok(acc)
            } else {
                spec_wood(commits, nxt, (remaining - 1) as nat, acc.push(nxt))
            }
        }
    }
}

/// Walk the commit log: HEAD's hash followed by the chain of parent
/// hashes, at most `lines` long.  Zero lines yields nothing.
pub fn wood(repo: &Repo, lines: usize) -> (r: Result<Vec<Vec<u8>>, GyatError>)
    requires
        repo.wf(),
    ensures
        ({
            let res = if lines == 0 {
                Ok::<Seq<Seq<u8>>, GyatError>(Seq::empty())
            } else {
                spec_wood(
                    repo.store.commits.as_map(),
                    trim_spec(repo.head@),
                    (lines - 1) as nat,
                    seq![trim_spec(repo.head@)],
                )
            };
            match r {
                Ok(out) => res matches Ok(o2) && out@.map_values(|p: Vec<u8>| p@) == o2,
                Err(e) => res matches Err(e2) && e == e2,
            }
        }),
{
    let mut out: Vec<Vec<u8>> = Vec::new();
    if lines == 0 {
        proof {
            assert(out@.map_values(|p: Vec<u8>| p@) =~= Seq::<Seq<u8>>::empty());
        }
        return Ok(out);
    }
    let mut cur = crate::bytes::trim(&repo.head);
    out.push(cur);
    cur = crate::bytes::trim(&repo.head);
    let mut remaining: usize = lines - 1;
    proof {
        assert(out@.map_values(|p: Vec<u8>| p@) =~= seq![trim_spec(repo.head@)]);
    }
    loop
        invariant
            repo.wf(),
            spec_wood(
                repo.store.commits.as_map(),
                trim_spec(repo.head@),
                (lines - 1) as nat,
                seq![trim_spec(repo.head@)],
            ) == spec_wood(
                repo.store.commits.as_map(),
                cur@,
                remaining as nat,
                out@.map_values(|p: Vec<u8>| p@),
            ),
            lines > 0,
        decreases remaining,
    {
        if remaining == 0 {
            return Ok(out);
        }
        let content = match repo.store.commits.get(&cur) {
            None => {
                return Err(GyatError::IoError);
            },
            Some(c) => c,
        };
        let linesv = crate::bytes::split(content, 10);
        proof {
            assert(linesv@.map_values(|p: Vec<u8>| p@)[0] == linesv@[0]@);
        }
        let parts = crate::bytes::split(&linesv[0], 58);
        if parts.len() < 2 {
            return Err(GyatError::FormatError);
        }
        proof {
            assert(parts@.map_values(|p: Vec<u8>| p@)[1] == parts@[1]@);
        }
        let nxt = crate::bytes::trim(&parts[1]);
        if nxt.len() == 0 || nxt.len() < 20 {
            return Ok(out);
        }
        let ghost oprev = out@.map_values(|p: Vec<u8>| p@);
        let nxt2 = crate::bytes::copy_bytes(&nxt);
        out.push(nxt2);
        proof {
            assert(out@.map_values(|p: Vec<u8>| p@) =~= oprev.push(nxt@));
        }
        cur = nxt;
        remaining = remaining - 1;
    }
}


proof fn lemma_to_add_elems(hm: Map<Seq<u8>, Seq<u8>>, t: Seq<(Seq<u8>, Seq<u8>)>)
    ensures
        forall|p: Seq<u8>|
            #[trigger] crate::bytemap::has_key(to_add_spec(hm, t), p) <==> (
            crate::bytemap::has_key(t, p) && !hm.contains_key(p)),
    decreases t.len(),
{
    if t.len() == 0 {
        assert forall|p: Seq<u8>|
            #[trigger] crate::bytemap::has_key(to_add_spec(hm, t), p) <==> (
        crate::bytemap::has_key(t, p) && !hm.contains_key(p)) by {
            if crate::bytemap::has_key(to_add_spec(hm, t), p) {
                let i = choose|i: int|
                    0 <= i < to_add_spec(hm, t).len() && to_add_spec(hm, t)[i].0 == p;
            }
            if crate::bytemap::has_key(t, p) {
                let i = choose|i: int| 0 <= i < t.len() && t[i].0 == p;
            }
        }
    } else {
        lemma_to_add_elems(hm, t.skip(1));
        let a = to_add_spec(hm, t);
        let rest = to_add_spec(hm, t.skip(1));
        assert forall|p: Seq<u8>|
            #[trigger] crate::bytemap::has_key(a, p) <==> (crate::bytemap::has_key(t, p)
            && !hm.contains_key(p)) by {
            if crate::bytemap::has_key(a, p) {
                let i = choose|i: int| 0 <= i < a.len() && a[i].0 == p;
                if !hm.contains_key(t[0].0) {
                    if i == 0 {
                        assert(t[0].0 == p);
                    } else {
                        assert(rest[i - 1].0 == p);
                        assert(crate::bytemap::has_key(rest, p));
                        let w = choose|w: int|
                            0 <= w < t.skip(1).len() && t.skip(1)[w].0 == p;
                        assert(t[w + 1].0 == p);
                    }
                } else {
                    assert(crate::bytemap::has_key(rest, p));
                    let w = choose|w: int| 0 <= w < t.skip(1).len() && t.skip(1)[w].0 == p;
                    assert(t[w + 1].0 == p);
                }
            }
            if crate::bytemap::has_key(t, p) && !hm.contains_key(p) {
                let i = choose|i: int| 0 <= i < t.len() && t[i].0 == p;
                if i == 0 {
                    assert(a[0].0 == p);
                } else {
                    assert(t.skip(1)[i - 1].0 == p);
                    assert(crate::bytemap::has_key(rest, p));
                    let w = choose|w: int| 0 <= w < rest.len() && rest[w].0 == p;
                    if !hm.contains_key(t[0].0) {
                        assert(a[w + 1].0 == p);
                    } else {
                        assert(a[w as int].0 == p);
                    }
                }
            }
        }
    }
}

proof fn lemma_to_modify_elems(hm: Map<Seq<u8>, Seq<u8>>, t: Seq<(Seq<u8>, Seq<u8>)>)
    requires
        crate::bytemap::keys_distinct(t),
    ensures
        forall|p: Seq<u8>|
            #[trigger] crate::bytemap::has_key(to_modify_spec(hm, t), p) <==> (
            crate::bytemap::has_key(t, p) && hm.contains_key(p) && hm[p]
                != crate::bytemap::map_of(t)[p]),
    decreases t.len(),
{
    if t.len() == 0 {
        assert forall|p: Seq<u8>|
            #[trigger] crate::bytemap::has_key(to_modify_spec(hm, t), p) <==> (
        crate::bytemap::has_key(t, p) && hm.contains_key(p) && hm[p]
            != crate::bytemap::map_of(t)[p]) by {
            if crate::bytemap::has_key(to_modify_spec(hm, t), p) {
                let i = choose|i: int|
                    0 <= i < to_modify_spec(hm, t).len() && to_modify_spec(hm, t)[i].0 == p;
            }
            if crate::bytemap::has_key(t, p) {
                let i = choose|i: int| 0 <= i < t.len() && t[i].0 == p;
            }
        }
    } else {
        assert(crate::bytemap::keys_distinct(t.skip(1))) by {
            assert(forall|i: int| 0 <= i < t.skip(1).len() ==> t.skip(1)[i] == t[i + 1]);
        }
        lemma_to_modify_elems(hm, t.skip(1));
        let a = to_modify_spec(hm, t);
        let rest = to_modify_spec(hm, t.skip(1));
        let cond0 = hm.contains_key(t[0].0) && hm[t[0].0] != t[0].1;
        assert(crate::bytemap::map_of(t) == crate::bytemap::map_of(t.skip(1)).insert(
            t[0].0,
            t[0].1,
        ));
        assert(!crate::bytemap::has_key(t.skip(1), t[0].0)) by {
            if crate::bytemap::has_key(t.skip(1), t[0].0) {
                let w = choose|w: int|
                    0 <= w < t.skip(1).len() && t.skip(1)[w].0 == t[0].0;
                assert(t[w + 1].0 == t[0].0);
            }
        }
        assert forall|p: Seq<u8>|
            #[trigger] crate::bytemap::has_key(a, p) <==> (crate::bytemap::has_key(t, p)
            && hm.contains_key(p) && hm[p] != crate::bytemap::map_of(t)[p]) by {
            crate::bytemap::lemma_map_of_contains(t.skip(1), p);
            if crate::bytemap::has_key(a, p) {
                let i = choose|i: int| 0 <= i < a.len() && a[i].0 == p;
                if cond0 && i == 0 {
                    assert(t[0].0 == p);
                } else {
                    let w: int = if cond0 {
                        i - 1
                    } else {
                        i
                    };
                    assert(rest[w].0 == p);
                    assert(crate::bytemap::has_key(rest, p));
                    let w2 = choose|w2: int|
                        0 <= w2 < t.skip(1).len() && t.skip(1)[w2].0 == p;
                    assert(t[w2 + 1].0 == p);
                    assert(p != t[0].0);
                }
            }
            if crate::bytemap::has_key(t, p) && hm.contains_key(p) && hm[p]
                != crate::bytemap::map_of(t)[p] {
                let i = choose|i: int| 0 <= i < t.len() && t[i].0 == p;
                if i == 0 {
                    assert(crate::bytemap::map_of(t)[p] == t[0].1);
                    assert(cond0);
                    assert(a[0].0 == p);
                } else {
                    assert(t.skip(1)[i - 1].0 == p);
                    assert(p != t[0].0);
                    assert(crate::bytemap::map_of(t)[p] == crate::bytemap::map_of(
                        t.skip(1),
                    )[p]);
                    assert(crate::bytemap::has_key(rest, p));
                    let w = choose|w: int| 0 <= w < rest.len() && rest[w].0 == p;
                    if cond0 {
                        assert(a[w + 1].0 == p);
                    } else {
                        assert(a[w as int].0 == p);
                    }
                }
            }
        }
    }
}

proof fn lemma_to_delete_elems(h: Seq<(Seq<u8>, Seq<u8>)>, tm: Map<Seq<u8>, Seq<u8>>)
    ensures
        forall|p: Seq<u8>|
            #[trigger] crate::root::path_in(to_delete_spec(h, tm), p) <==> (
            crate::bytemap::has_key(h, p) && !tm.contains_key(p)),
    decreases h.len(),
{
    if h.len() == 0 {
        assert forall|p: Seq<u8>|
            #[trigger] crate::root::path_in(to_delete_spec(h, tm), p) <==> (
        crate::bytemap::has_key(h, p) && !tm.contains_key(p)) by {
            if crate::root::path_in(to_delete_spec(h, tm), p) {
                let i = choose|i: int|
                    0 <= i < to_delete_spec(h, tm).len() && to_delete_spec(h, tm)[i] == p;
            }
            if crate::bytemap::has_key(h, p) {
                let i = choose|i: int| 0 <= i < h.len() && h[i].0 == p;
            }
        }
    } else {
        lemma_to_delete_elems(h.skip(1), tm);
        let a = to_delete_spec(h, tm);
        let rest = to_delete_spec(h.skip(1), tm);
        assert forall|p: Seq<u8>|
            #[trigger] crate::root::path_in(a, p) <==> (crate::bytemap::has_key(h, p)
            && !tm.contains_key(p)) by {
            if crate::root::path_in(a, p) {
                let i = choose|i: int| 0 <= i < a.len() && a[i] == p;
                if !tm.contains_key(h[0].0) && i == 0 {
                    assert(h[0].0 == p);
                } else {
                    let w: int = if !tm.contains_key(h[0].0) {
                        i - 1
                    } else {
                        i
                    };
                    assert(rest[w] == p);
                    assert(crate::root::path_in(rest, p));
                    let w2 = choose|w2: int|
                        0 <= w2 < h.skip(1).len() && h.skip(1)[w2].0 == p;
                    assert(h[w2 + 1].0 == p);
                }
            }
            if crate::bytemap::has_key(h, p) && !tm.contains_key(p) {
                let i = choose|i: int| 0 <= i < h.len() && h[i].0 == p;
                if i == 0 {
                    assert(a[0] == p);
                } else {
                    assert(h.skip(1)[i - 1].0 == p);
                    assert(crate::bytemap::has_key(h.skip(1), p));
                    assert(crate::root::path_in(rest, p));
                    let w = choose|w: int| 0 <= w < rest.len() && rest[w] == p;
                    if !tm.contains_key(h[0].0) {
                        assert(a[w + 1] == p);
                    } else {
                        assert(a[w as int] == p);
                    }
                }
            }
        }
    }
}

/// Whether a (path, hash) entry occurs in an entry list.
pub open spec fn in_entries(s: Seq<(Seq<u8>, Seq<u8>)>, e: (Seq<u8>, Seq<u8>)) -> bool {
    exists|i: int| 0 <= i < s.len() && s[i] == e
}

proof fn lemma_to_add_entries(hm: Map<Seq<u8>, Seq<u8>>, t: Seq<(Seq<u8>, Seq<u8>)>)
    ensures
        forall|e: (Seq<u8>, Seq<u8>)|
            #[trigger] in_entries(to_add_spec(hm, t), e) <==> (in_entries(t, e)
                && !hm.contains_key(e.0)),
    decreases t.len(),
{
    if t.len() == 0 {
        assert forall|e: (Seq<u8>, Seq<u8>)|
            #[trigger] in_entries(to_add_spec(hm, t), e) <==> (in_entries(t, e)
            && !hm.contains_key(e.0)) by {
            if in_entries(to_add_spec(hm, t), e) {
                let i = choose|i: int|
                    0 <= i < to_add_spec(hm, t).len() && to_add_spec(hm, t)[i] == e;
            }
            if in_entries(t, e) {
                let i = choose|i: int| 0 <= i < t.len() && t[i] == e;
            }
        }
    } else {
        lemma_to_add_entries(hm, t.skip(1));
        let a = to_add_spec(hm, t);
        let rest = to_add_spec(hm, t.skip(1));
        assert forall|e: (Seq<u8>, Seq<u8>)|
            #[trigger] in_entries(a, e) <==> (in_entries(t, e) && !hm.contains_key(e.0)) by {
            if in_entries(a, e) {
                let i = choose|i: int| 0 <= i < a.len() && a[i] == e;
                if !hm.contains_key(t[0].0) && i == 0 {
                    assert(t[0] == e);
                } else {
                    let w: int = if !hm.contains_key(t[0].0) {
                        i - 1
                    } else {
                        i
                    };
                    assert(rest[w] == e);
                    assert(in_entries(rest, e));
                    let w2 = choose|w2: int| 0 <= w2 < t.skip(1).len() && t.skip(1)[w2] == e;
                    assert(t[w2 + 1] == e);
                }
            }
            if in_entries(t, e) && !hm.contains_key(e.0) {
                let i = choose|i: int| 0 <= i < t.len() && t[i] == e;
                if i == 0 {
                    assert(a[0] == e);
                } else {
                    assert(t.skip(1)[i - 1] == e);
                    assert(in_entries(rest, e));
                    let w = choose|w: int| 0 <= w < rest.len() && rest[w] == e;
                    if !hm.contains_key(t[0].0) {
                        assert(a[w + 1] == e);
                    } else {
                        assert(a[w as int] == e);
                    }
                }
            }
        }
    }
}

proof fn lemma_to_modify_entries(hm: Map<Seq<u8>, Seq<u8>>, t: Seq<(Seq<u8>, Seq<u8>)>)
    ensures
        forall|e: (Seq<u8>, Seq<u8>)|
            #[trigger] in_entries(to_modify_spec(hm, t), e) <==> (in_entries(t, e)
                && hm.contains_key(e.0) && hm[e.0] != e.1),
    decreases t.len(),
{
    if t.len() == 0 {
        assert forall|e: (Seq<u8>, Seq<u8>)|
            #[trigger] in_entries(to_modify_spec(hm, t), e) <==> (in_entries(t, e)
            && hm.contains_key(e.0) && hm[e.0] != e.1) by {
            if in_entries(to_modify_spec(hm, t), e) {
                let i = choose|i: int|
                    0 <= i < to_modify_spec(hm, t).len() && to_modify_spec(hm, t)[i] == e;
            }
            if in_entries(t, e) {
                let i = choose|i: int| 0 <= i < t.len() && t[i] == e;
            }
        }
    } else {
        lemma_to_modify_entries(hm, t.skip(1));
        let a = to_modify_spec(hm, t);
        let rest = to_modify_spec(hm, t.skip(1));
        let cond0 = hm.contains_key(t[0].0) && hm[t[0].0] != t[0].1;
        assert forall|e: (Seq<u8>, Seq<u8>)|
            #[trigger] in_entries(a, e) <==> (in_entries(t, e) && hm.contains_key(e.0) && hm[e.0]
            != e.1) by {
            if in_entries(a, e) {
                let i = choose|i: int| 0 <= i < a.len() && a[i] == e;
                if cond0 && i == 0 {
                    assert(t[0] == e);
                } else {
                    let w: int = if cond0 {
                        i - 1
                    } else {
                        i
                    };
                    assert(rest[w] == e);
                    assert(in_entries(rest, e));
                    let w2 = choose|w2: int| 0 <= w2 < t.skip(1).len() && t.skip(1)[w2] == e;
                    assert(t[w2 + 1] == e);
                }
            }
            if in_entries(t, e) && hm.contains_key(e.0) && hm[e.0] != e.1 {
                let i = choose|i: int| 0 <= i < t.len() && t[i] == e;
                if i == 0 {
                    assert(cond0);
                    assert(a[0] == e);
                } else {
                    assert(t.skip(1)[i - 1] == e);
                    assert(in_entries(rest, e));
                    let w = choose|w: int| 0 <= w < rest.len() && rest[w] == e;
                    if cond0 {
                        assert(a[w + 1] == e);
                    } else {
                        assert(a[w as int] == e);
                    }
                }
            }
        }
    }
}

/// Law (diff completeness): for any two blob mappings, the additions,
/// the modifications and the unchanged paths together are exactly the
/// target's paths; the deletions are exactly the head paths the target
/// lacks; and the three sets are pairwise disjoint in path.
pub proof fn lemma_diff_completeness(head: Seq<(Seq<u8>, Seq<u8>)>, target: Seq<(Seq<u8>, Seq<u8>)>)
    requires
        crate::bytemap::keys_distinct(head),
        crate::bytemap::keys_distinct(target),
    ensures
        ({
            let hm = crate::bytemap::map_of(head);
            let tm = crate::bytemap::map_of(target);
            let adds = to_add_spec(hm, target);
            let mods = to_modify_spec(hm, target);
            let dels = to_delete_spec(head, tm);
            &&& forall|p: Seq<u8>|
                #[trigger] tm.contains_key(p) <==> (crate::bytemap::has_key(adds, p)
                    || crate::bytemap::has_key(mods, p) || (hm.contains_key(p)
                    && tm.contains_key(p) && hm[p] == tm[p]))
            &&& forall|p: Seq<u8>|
                #[trigger] crate::root::path_in(dels, p) <==> (hm.contains_key(p)
                    && !tm.contains_key(p))
            &&& forall|p: Seq<u8>|
                !(#[trigger] crate::bytemap::has_key(adds, p) && crate::bytemap::has_key(
                    mods,
                    p,
                ))
            &&& forall|p: Seq<u8>|
                !(#[trigger] crate::bytemap::has_key(adds, p) && crate::root::path_in(dels, p))
            &&& forall|p: Seq<u8>|
                !(#[trigger] crate::bytemap::has_key(mods, p) && crate::root::path_in(dels, p))
            &&& forall|e: (Seq<u8>, Seq<u8>)|
                #[trigger] in_entries(adds, e) <==> (in_entries(target, e) && !hm.contains_key(
                    e.0,
                ))
            &&& forall|e: (Seq<u8>, Seq<u8>)|
                #[trigger] in_entries(mods, e) <==> (in_entries(target, e) && hm.contains_key(e.0)
                    && hm[e.0] != e.1)
        }),
{
    let hm = crate::bytemap::map_of(head);
    let tm = crate::bytemap::map_of(target);
    lemma_to_add_elems(hm, target);
    lemma_to_modify_elems(hm, target);
    lemma_to_delete_elems(head, tm);
    lemma_to_add_entries(hm, target);
    lemma_to_modify_entries(hm, target);
    assert forall|p: Seq<u8>| #[trigger] tm.contains_key(p) implies (crate::bytemap::has_key(
        to_add_spec(hm, target),
        p,
    ) || crate::bytemap::has_key(to_modify_spec(hm, target), p) || (hm.contains_key(p)
        && tm.contains_key(p) && hm[p] == tm[p])) by {
        crate::bytemap::lemma_map_of_contains(target, p);
    }
    assert forall|p: Seq<u8>|
        (crate::bytemap::has_key(to_add_spec(hm, target), p) || crate::bytemap::has_key(
            to_modify_spec(hm, target),
            p,
        ) || (hm.contains_key(p) && tm.contains_key(p) && hm[p] == tm[p])) implies #[trigger] tm.contains_key(
        p,
    ) by {
        crate::bytemap::lemma_map_of_contains(target, p);
    }
    assert forall|p: Seq<u8>|
        #[trigger] crate::root::path_in(to_delete_spec(head, tm), p) <==> (hm.contains_key(p)
        && !tm.contains_key(p)) by {
        crate::bytemap::lemma_map_of_contains(head, p);
    }
    assert forall|p: Seq<u8>|
        !(#[trigger] crate::bytemap::has_key(to_add_spec(hm, target), p)
            && crate::root::path_in(to_delete_spec(head, tm), p)) by {
        crate::bytemap::lemma_map_of_contains(target, p);
        crate::bytemap::lemma_map_of_contains(head, p);
    }
    assert forall|p: Seq<u8>|
        !(#[trigger] crate::bytemap::has_key(to_modify_spec(hm, target), p)
            && crate::root::path_in(to_delete_spec(head, tm), p)) by {
        crate::bytemap::lemma_map_of_contains(target, p);
        crate::bytemap::lemma_map_of_contains(head, p);
    }
}

/// Law (observing an unchanged tree stages nothing): when every
/// observed file is tracked in the previous blob set with the same
/// hash, every tracked path is observed, and no path is observed
/// twice, the classified list is empty.  An observe step reads only
/// the working tree and the last commit and rewrites only the index,
/// so running it twice in a row without touching the working tree
/// writes the same index twice — and an empty one whenever the tree
/// matches the last commit.
pub proof fn lemma_observe_unchanged_empty(
    obs: Seq<(u8, Seq<u8>, Seq<u8>)>,
    prev: Seq<(Seq<u8>, Seq<u8>)>,
)
    requires
        crate::bytemap::keys_distinct(prev),
        forall|k: int|
            0 <= k < obs.len() ==> crate::bytemap::has_key(prev, (#[trigger] obs[k]).2)
                && crate::bytemap::map_of(prev)[obs[k].2] == obs[k].1,
        forall|x: Seq<u8>|
            #[trigger] crate::bytemap::has_key(prev, x) ==> exists|k: int|
                0 <= k < obs.len() && (#[trigger] obs[k]).2 == x,
        forall|k1: int, k2: int|
            0 <= k1 < k2 < obs.len() ==> (#[trigger] obs[k1]).2 != (#[trigger] obs[k2]).2,
    ensures
        observe_entries_spec(obs, prev) == Seq::<IndexEntryV>::empty(),
    decreases obs.len(),
{
    if obs.len() == 0 {
        assert(prev.len() == 0) by {
            if prev.len() > 0 {
                assert(crate::bytemap::has_key(prev, prev[0].0));
                let k = choose|k: int| 0 <= k < obs.len() && obs[k].2 == prev[0].0;
            }
        }
        assert(observe_entries_spec(obs, prev) =~= Seq::<IndexEntryV>::empty());
    } else {
        let p = obs[0].2;
        let h = obs[0].1;
        assert(crate::bytemap::has_key(prev, p) && crate::bytemap::map_of(prev)[p] == h);
        let prev2 = crate::bytemap::remove_spec(prev, p);
        let i = choose|i: int| 0 <= i < prev.len() && prev[i].0 == p;
        assert(forall|j: int| 0 <= j < i ==> prev[j].0 != p);
        crate::bytemap::lemma_remove_spec_at(prev, p, i);
        crate::bytemap::lemma_map_of_remove_first(prev, i, p);
        assert(prev2 == prev.remove(i));
        assert(crate::bytemap::keys_distinct(prev2));
        assert(crate::bytemap::map_of(prev2) == crate::bytemap::map_of(prev).remove(p));
        assert forall|k: int|
            0 <= k < obs.skip(1).len() implies crate::bytemap::has_key(
            prev2,
            (#[trigger] obs.skip(1)[k]).2,
        ) && crate::bytemap::map_of(prev2)[obs.skip(1)[k].2] == obs.skip(1)[k].1 by {
            assert(obs.skip(1)[k] == obs[k + 1]);
            assert(obs[k + 1].2 != p);
            crate::bytemap::lemma_map_of_contains(prev2, obs[k + 1].2);
            crate::bytemap::lemma_map_of_contains(prev, obs[k + 1].2);
        }
        assert forall|x: Seq<u8>|
            #[trigger] crate::bytemap::has_key(prev2, x) implies exists|k: int|
                0 <= k < obs.skip(1).len() && (#[trigger] obs.skip(1)[k]).2 == x by {
            crate::bytemap::lemma_map_of_contains(prev2, x);
            assert(crate::bytemap::map_of(prev2).contains_key(x));
            assert(x != p);
            crate::bytemap::lemma_map_of_contains(prev, x);
            assert(crate::bytemap::has_key(prev, x));
            let k = choose|k: int| 0 <= k < obs.len() && (#[trigger] obs[k]).2 == x;
            assert(k > 0);
            assert(obs.skip(1)[k - 1].2 == x);
        }
        assert(forall|k1: int, k2: int|
            0 <= k1 < k2 < obs.skip(1).len() ==> (#[trigger] obs.skip(1)[k1]).2 != (
            #[trigger] obs.skip(1)[k2]).2) by {
            assert(forall|k: int| 0 <= k < obs.skip(1).len() ==> obs.skip(1)[k] == obs[k + 1]);
        }
        lemma_observe_unchanged_empty(obs.skip(1), prev2);
        assert(classify_spec(obs, prev) == classify_spec(obs.skip(1), prev2));
    }
}

} // verus!
