//! The well-known paths of a repository's metadata directory.

use vstd::prelude::*;
use crate::GyatError;
use crate::objects::path_join;

verus! {

/// Check a repository name before anything is created for it: an
/// empty name, `.` and `..` are unusable, any other name (or none,
/// meaning the current directory) is fine.
pub fn validate_repo_name(name: &Option<Vec<u8>>) -> (r: Result<(), GyatError>)
    ensures
        r is Err <==> (match name {
            Some(n) => n@.len() == 0 || n@ == seq![46u8] || n@ == seq![46u8, 46u8],
            None => false,
        }),
        r is Err ==> r == Err::<(), GyatError>(GyatError::InvalidArgument),
{
    match name {
        None => Ok(()),
        Some(n) => {
            let empty = n.len() == 0;
            let dot = n.len() == 1 && n[0] == 46;
            let dotdot = n.len() == 2 && n[0] == 46 && n[1] == 46;
            proof {
                if dot {
                    assert(n@ =~= seq![46u8]);
                }
                if dotdot {
                    assert(n@ =~= seq![46u8, 46u8]);
                }
                if !empty && !dot {
                    assert(n@ != seq![46u8]) by {
                        if n@ == seq![46u8] {
                            assert(n@.len() == 1 && n@[0] == 46);
                        }
                    }
                }
                if !dotdot {
                    assert(n@ != seq![46u8, 46u8]) by {
                        if n@ == seq![46u8, 46u8] {
                            assert(n@.len() == 2 && n@[0] == 46 && n@[1] == 46);
                        }
                    }
                }
            }
            if empty || dot || dotdot {
                Err(GyatError::InvalidArgument)
            } else {
                Ok(())
            }
        },
    }
}

/// The name of the metadata directory, `.gyat`.
pub open spec fn gyat_dir_name() -> Seq<u8> {
    seq![46u8, 103u8, 121u8, 97u8, 116u8]
}

/// All the paths a command may need, derived from the repository root:
/// the `.gyat` directory and the index, HEAD, commit, tree and blob
/// stores inside it.
#[derive(Debug)]
pub struct AllPaths {
    pub repo_root: Vec<u8>,
    pub gyat_path: Vec<u8>,
    pub index_path: Vec<u8>,
    pub head_path: Vec<u8>,
    pub commits_path: Vec<u8>,
    pub dirs_path: Vec<u8>,
    pub files_path: Vec<u8>,
}

fn push_name(base: &Vec<u8>, name: &Vec<u8>) -> (r: Vec<u8>)
    ensures
        r@ == path_join(base@, name@),
{
    crate::objects::join_path(base, name)
}

/// Derive every metadata path from the repository root.
pub fn gyat_paths(repo_root: &Vec<u8>) -> (r: AllPaths)
    ensures
        r.repo_root@ == repo_root@,
        r.gyat_path@ == path_join(repo_root@, gyat_dir_name()),
        r.index_path@ == path_join(path_join(repo_root@, gyat_dir_name()), seq![105u8, 110u8, 100u8, 101u8, 120u8]),
        r.head_path@ == path_join(path_join(repo_root@, gyat_dir_name()), seq![72u8, 69u8, 65u8, 68u8]),
        r.commits_path@ == path_join(path_join(repo_root@, gyat_dir_name()), seq![99u8, 111u8, 109u8, 109u8, 105u8, 116u8, 115u8]),
        r.dirs_path@ == path_join(path_join(repo_root@, gyat_dir_name()), seq![100u8, 105u8, 114u8, 115u8]),
        r.files_path@ == path_join(path_join(repo_root@, gyat_dir_name()), seq![102u8, 105u8, 108u8, 101u8, 115u8]),
{
    let mut gyat_name: Vec<u8> = Vec::new();
    gyat_name.push(46);
    gyat_name.push(103);
    gyat_name.push(121);
    gyat_name.push(97);
    gyat_name.push(116);
    proof {
        assert(gyat_name@ =~= gyat_dir_name());
    }
    let gyat_path = push_name(repo_root, &gyat_name);
    let mut index_name: Vec<u8> = Vec::new();
    index_name.push(105);
    index_name.push(110);
    index_name.push(100);
    index_name.push(101);
    index_name.push(120);
    proof {
        assert(index_name@ =~= seq![105u8, 110u8, 100u8, 101u8, 120u8]);
    }
    let mut head_name: Vec<u8> = Vec::new();
    head_name.push(72);
    head_name.push(69);
    head_name.push(65);
    head_name.push(68);
    proof {
        assert(head_name@ =~= seq![72u8, 69u8, 65u8, 68u8]);
    }
    let mut commits_name: Vec<u8> = Vec::new();
    commits_name.push(99);
    commits_name.push(111);
    commits_name.push(109);
    commits_name.push(109);
    commits_name.push(105);
    commits_name.push(116);
    commits_name.push(115);
    proof {
        assert(commits_name@ =~= seq![99u8, 111u8, 109u8, 109u8, 105u8, 116u8, 115u8]);
    }
    let mut dirs_name: Vec<u8> = Vec::new();
    dirs_name.push(100);
    dirs_name.push(105);
    dirs_name.push(114);
    dirs_name.push(115);
    proof {
        assert(dirs_name@ =~= seq![100u8, 105u8, 114u8, 115u8]);
    }
    let mut files_name: Vec<u8> = Vec::new();
    files_name.push(102);
    files_name.push(105);
    files_name.push(108);
    files_name.push(101);
    files_name.push(115);
    proof {
        assert(files_name@ =~= seq![102u8, 105u8, 108u8, 101u8, 115u8]);
    }
    let index_path = push_name(&gyat_path, &index_name);
    let head_path = push_name(&gyat_path, &head_name);
    let commits_path = push_name(&gyat_path, &commits_name);
    let dirs_path = push_name(&gyat_path, &dirs_name);
    let files_path = push_name(&gyat_path, &files_name);
    let repo_root2 = crate::bytes::copy_bytes(repo_root);
    AllPaths {
        repo_root: repo_root2,
        gyat_path,
        index_path,
        head_path,
        commits_path,
        dirs_path,
        files_path,
    }
}

} // verus!
