//! Repository root discovery, as a pure function.
//!
//! The surrounding program checks the file system and hands in the list
//! of directories that contain a `.gyat` marker; the walk from a
//! starting path up through its ancestors is decided here.

use vstd::prelude::*;
use crate::bytes::join_spec;
use crate::dirtree::path_comps;

verus! {

/// Whether a path occurs in a list of paths.
pub open spec fn path_in(ps: Seq<Seq<u8>>, x: Seq<u8>) -> bool {
    exists|i: int| 0 <= i < ps.len() && ps[i] == x
}

/// The nearest ancestor (the path itself first) whose joined form is in
/// the marked list.
pub open spec fn spec_repo_root(comps: Seq<Seq<u8>>, marked: Seq<Seq<u8>>) -> Option<Seq<u8>>
    decreases comps.len(),
{
    if comps.len() == 0 {
        None
    } else if path_in(marked, join_spec(comps, 47)) {
        Some(join_spec(comps, 47))
    } else {
        spec_repo_root(comps.drop_last(), marked)
    }
}

/// Decide whether a path is in a list of paths.
fn path_in_list(ps: &Vec<Vec<u8>>, x: &Vec<u8>) -> (r: bool)
    ensures
        r == path_in(ps@.map_values(|p: Vec<u8>| p@), x@),
{
    let ghost pv = ps@.map_values(|p: Vec<u8>| p@);
    let mut i: usize = 0;
    while i < ps.len()
        invariant
            i <= ps.len(),
            pv == ps@.map_values(|p: Vec<u8>| p@),
            forall|j: int| 0 <= j < i ==> pv[j] != x@,
        decreases ps.len() - i,
    {
        proof {
            assert(pv[i as int] == ps@[i as int]@);
        }
        if crate::bytes::bytes_eq(&ps[i], x) {
            return true;
        }
        i = i + 1;
    }
    proof {
        if path_in(pv, x@) {
            let j = choose|j: int| 0 <= j < pv.len() && pv[j] == x@;
            assert(pv[j] != x@);
        }
    }
    false
}

/// Find the repository root for a starting path: the path itself or the
/// nearest ancestor listed in `marked`, the directories that hold a
/// `.gyat` marker.  An empty starting path finds nothing.
pub fn get_repo_root(path: &Vec<u8>, marked: &Vec<Vec<u8>>) -> (r: Option<Vec<u8>>)
    ensures
        ({
            let res = spec_repo_root(
                path_comps(path@),
                marked@.map_values(|p: Vec<u8>| p@),
            );
            match r {
                Some(p) => res == Some(p@),
                None => res is None,
            }
        }),
{
    let mut comps = crate::dirtree::comps_of_path(path);
    let ghost mv = marked@.map_values(|p: Vec<u8>| p@);
    while comps.len() > 0
        invariant
            mv == marked@.map_values(|p: Vec<u8>| p@),
            spec_repo_root(path_comps(path@), mv) == spec_repo_root(
                comps@.map_values(|p: Vec<u8>| p@),
                mv,
            ),
        decreases comps@.len(),
    {
        let joined = crate::bytes::join(&comps, 47);
        if path_in_list(marked, &joined) {
            return Some(joined);
        }
        let ghost before = comps@.map_values(|p: Vec<u8>| p@);
        comps.pop();
        proof {
            assert(comps@.map_values(|p: Vec<u8>| p@) =~= before.drop_last());
        }
    }
    None
}

/// Whether the starting path lies inside some repository.
pub fn is_repo(path: &Vec<u8>, marked: &Vec<Vec<u8>>) -> (r: bool)
    ensures
        r == (spec_repo_root(path_comps(path@), marked@.map_values(|p: Vec<u8>| p@)) is Some),
{
    get_repo_root(path, marked).is_some()
}

/// The repository root a command must run inside: like
/// `get_repo_root`, but an absent root is the error it is for a
/// command that needs one.
pub fn require_repo_root(path: &Vec<u8>, marked: &Vec<Vec<u8>>) -> (r: Result<
    Vec<u8>,
    crate::GyatError,
>)
    ensures
        ({
            let res = spec_repo_root(
                path_comps(path@),
                marked@.map_values(|p: Vec<u8>| p@),
            );
            match r {
                Ok(p) => res == Some(p@),
                Err(e) => res is None && e == crate::GyatError::NotARepository,
            }
        }),
{
    match get_repo_root(path, marked) {
        Some(p) => Ok(p),
        None => Err(crate::GyatError::NotARepository),
    }
}

} // verus!
