//! Working-tree values and the staging index.
//!
//! The surrounding program enumerates the working directory and hands the
//! engine plain listings; the classification and the index codec here are
//! verified.  An index line reads
//! `<perm>\t<40 hex chars>\t<path>\t<New|Mod|Del>\n` with `perm` 0 for a
//! readonly file and 1 for a writable one.

use vstd::prelude::*;
use crate::GyatError;
use crate::bytes::{append_bytes, split, split_spec, trim, trim_spec};
use crate::hash::{hex_encode, hex_decode, is_valid_hex};

verus! {

/// How a file changed against the previous commit.
#[derive(Debug, Clone, Copy, PartialEq, Eq, Structural)]
pub enum ChangeType {
    New,
    Mod,
    Del,
}

/// The tag bytes of a change kind: `New`, `Mod` or `Del`.
pub open spec fn change_bytes(c: ChangeType) -> Seq<u8> {
    match c {
        ChangeType::New => seq![78u8, 101u8, 119u8],
        ChangeType::Mod => seq![77u8, 111u8, 100u8],
        ChangeType::Del => seq![68u8, 101u8, 108u8],
    }
}

/// The tag bytes of a change kind, executably.
pub fn change_label(c: ChangeType) -> (r: Vec<u8>)
    ensures
        r@ == change_bytes(c),
{
    let mut v: Vec<u8> = Vec::new();
    match c {
        ChangeType::New => {
            v.push(78);
            v.push(101);
            v.push(119);
        },
        ChangeType::Mod => {
            v.push(77);
            v.push(111);
            v.push(100);
        },
        ChangeType::Del => {
            v.push(68);
            v.push(101);
            v.push(108);
        },
    }
    proof {
        assert(v@ =~= change_bytes(c));
    }
    v
}

/// One staging-index entry: permission flag, content hash (raw), the
/// repo-relative path and the change kind.
#[derive(Debug, PartialEq, Eq)]
pub struct IndexEntry {
    pub perm: u8,
    pub hash: Vec<u8>,
    pub path: Vec<u8>,
    pub change: ChangeType,
}

/// The mathematical value of an `IndexEntry`.
#[verifier::ext_equal]
pub struct IndexEntryV {
    pub perm: u8,
    pub hash: Seq<u8>,
    pub path: Seq<u8>,
    pub change: ChangeType,
}

impl View for IndexEntry {
    type V = IndexEntryV;

    open spec fn view(&self) -> IndexEntryV {
        IndexEntryV { perm: self.perm, hash: self.hash@, path: self.path@, change: self.change }
    }
}

/// One line of the staging index.
pub open spec fn encode_index_line(e: IndexEntryV) -> Seq<u8>
    recommends
        e.perm <= 1,
{
    seq![(48 + e.perm) as u8, 9u8] + hex_encode(e.hash) + seq![9u8] + e.path + seq![9u8]
        + change_bytes(e.change) + seq![10u8]
}

/// The whole staging index: the entries' lines in order.
pub open spec fn encode_index_spec(es: Seq<IndexEntryV>) -> Seq<u8>
    decreases es.len(),
{
    if es.len() == 0 {
        Seq::empty()
    } else {
        encode_index_spec(es.drop_last()) + encode_index_line(es.last())
    }
}

/// Encode the staging index; each observe step overwrites the index file
/// with this.
pub fn encode_index(entries: &Vec<IndexEntry>) -> (r: Vec<u8>)
    requires
        forall|i: int| 0 <= i < entries@.len() ==> (#[trigger] entries@[i]).perm <= 1,
    ensures
        r@ == encode_index_spec(entries@.map_values(|e: IndexEntry| e@)),
{
    let ghost m = entries@.map_values(|e: IndexEntry| e@);
    let mut r: Vec<u8> = Vec::new();
    let mut i: usize = 0;
    proof {
        assert(m.take(0) =~= Seq::<IndexEntryV>::empty());
    }
    while i < entries.len()
        invariant
            i <= entries.len(),
            m == entries@.map_values(|e: IndexEntry| e@),
            forall|j: int| 0 <= j < entries@.len() ==> (#[trigger] entries@[j]).perm <= 1,
            r@ == encode_index_spec(m.take(i as int)),
        decreases entries.len() - i,
    {
        r.push(48 + entries[i].perm);
        r.push(9);
        let hx = crate::hash::to_string(&entries[i].hash);
        append_bytes(&mut r, &hx);
        r.push(9);
        append_bytes(&mut r, &entries[i].path);
        r.push(9);
        let label = change_label(entries[i].change);
        append_bytes(&mut r, &label);
        r.push(10);
        proof {
            let t = m.take(i + 1);
            assert(t.drop_last() =~= m.take(i as int));
            assert(t.last() == m[i as int]);
            assert(r@ =~= encode_index_spec(m.take(i as int)) + encode_index_line(m[i as int]));
        }
        i = i + 1;
    }
    proof {
        assert(m.take(i as int) =~= m);
    }
    r
}

/// What parsing one index line yields: the line is trimmed and cut at
/// tabs; the fields are the permission flag (exactly `0` or `1`), the
/// content hash, the path and the change kind.
pub open spec fn parse_index_line_spec(line: Seq<u8>) -> Result<IndexEntryV, GyatError> {
    let parts = split_spec(trim_spec(line), 9);
    if parts[0] != seq![48u8] && parts[0] != seq![49u8] {
        Err(GyatError::FormatError)
    } else if parts.len() < 2 {
        Err(GyatError::FormatError)
    } else if !(is_valid_hex(parts[1]) && hex_decode(parts[1]).len() >= 20) {
        Err(GyatError::HashDecodeError)
    } else if parts.len() < 4 {
        Err(GyatError::FormatError)
    } else if parts[3] != change_bytes(ChangeType::New) && parts[3] != change_bytes(
        ChangeType::Mod,
    ) && parts[3] != change_bytes(ChangeType::Del) {
        Err(GyatError::FormatError)
    } else {
        Ok(
            IndexEntryV {
                perm: if parts[0] == seq![48u8] {
                    0
                } else {
                    1
                },
                hash: hex_decode(parts[1]).take(20),
                path: parts[2],
                change: if parts[3] == change_bytes(ChangeType::New) {
                    ChangeType::New
                } else if parts[3] == change_bytes(ChangeType::Mod) {
                    ChangeType::Mod
                } else {
                    ChangeType::Del
                },
            },
        )
    }
}

/// Parse one index line.
fn parse_index_line(line: &Vec<u8>) -> (r: Result<IndexEntry, GyatError>)
    ensures
        r matches Ok(e) ==> parse_index_line_spec(line@) matches Ok(ev) && e@ == ev,
        r matches Err(e) ==> parse_index_line_spec(line@) matches Err(e2) && e == e2,
{
    let trimmed = trim(line);
    let parts = split(&trimmed, 9);
    proof {
        assert(parts@.map_values(|p: Vec<u8>| p@)[0] == parts@[0]@);
    }
    let zero = {
        let mut z: Vec<u8> = Vec::new();
        z.push(48);
        proof {
            assert(z@ =~= seq![48u8]);
        }
        z
    };
    let one = {
        let mut o: Vec<u8> = Vec::new();
        o.push(49);
        proof {
            assert(o@ =~= seq![49u8]);
        }
        o
    };
    let is_zero = crate::bytes::bytes_eq(&parts[0], &zero);
    let is_one = crate::bytes::bytes_eq(&parts[0], &one);
    if !is_zero && !is_one {
        return Err(GyatError::FormatError);
    }
    if parts.len() < 2 {
        return Err(GyatError::FormatError);
    }
    proof {
        assert(parts@.map_values(|p: Vec<u8>| p@)[1] == parts@[1]@);
    }
    let hash = match crate::hash::from_string(&parts[1]) {
        Ok(h) => h,
        Err(e) => {
            return Err(e);
        },
    };
    if parts.len() < 4 {
        return Err(GyatError::FormatError);
    }
    proof {
        assert(parts@.map_values(|p: Vec<u8>| p@)[2] == parts@[2]@);
        assert(parts@.map_values(|p: Vec<u8>| p@)[3] == parts@[3]@);
    }
    let is_new = crate::bytes::bytes_eq(&parts[3], &change_label(ChangeType::New));
    let is_mod = crate::bytes::bytes_eq(&parts[3], &change_label(ChangeType::Mod));
    let is_del = crate::bytes::bytes_eq(&parts[3], &change_label(ChangeType::Del));
    if !is_new && !is_mod && !is_del {
        return Err(GyatError::FormatError);
    }
    let path = crate::bytes::copy_bytes(&parts[2]);
    Ok(
        IndexEntry {
            perm: if is_zero {
                0
            } else {
                1
            },
            hash,
            path,
            change: if is_new {
                ChangeType::New
            } else if is_mod {
                ChangeType::Mod
            } else {
                ChangeType::Del
            },
        },
    )
}

/// Parsing a sequence of index lines: the first malformed line's error
/// wins; otherwise all entries in order.
pub open spec fn parse_index_lines_spec(lines: Seq<Seq<u8>>) -> Result<Seq<IndexEntryV>, GyatError>
    decreases lines.len(),
{
    if lines.len() == 0 {
        Ok(Seq::empty())
    } else {
        match parse_index_line_spec(lines[0]) {
            Err(e) => Err(e),
            Ok(c) => match parse_index_lines_spec(lines.skip(1)) {
                Err(e) => Err(e),
                Ok(rest) => Ok(seq![c] + rest),
            },
        }
    }
}

/// The record lines of the index file: the content split at newlines,
/// with the empty piece after a final newline dropped.
pub open spec fn index_content_lines(s: Seq<u8>) -> Seq<Seq<u8>> {
    let pieces = split_spec(s, 10);
    if pieces.last() == Seq::<u8>::empty() {
        pieces.drop_last()
    } else {
        pieces
    }
}

/// What parsing the whole index file yields.
pub open spec fn parse_index_spec(s: Seq<u8>) -> Result<Seq<IndexEntryV>, GyatError> {
    parse_index_lines_spec(index_content_lines(s))
}

/// Read the staging index back from its stored bytes.
pub fn read_index(content: &Vec<u8>) -> (r: Result<Vec<IndexEntry>, GyatError>)
    ensures
        r matches Ok(es) ==> parse_index_spec(content@) matches Ok(esv) && es@.map_values(
            |e: IndexEntry| e@,
        ) == esv,
        r matches Err(e) ==> parse_index_spec(content@) matches Err(e2) && e == e2,
{
    let mut pieces = split(content, 10);
    let ghost all = pieces@.map_values(|p: Vec<u8>| p@);
    proof {
        crate::bytes::lemma_split_spec_len(content@, 10);
        assert(all.last() == pieces@[all.len() - 1]@);
    }
    if pieces[pieces.len() - 1].len() == 0 {
        pieces.pop();
        proof {
            assert(all.last() =~= Seq::<u8>::empty());
            assert(pieces@.map_values(|p: Vec<u8>| p@) =~= all.drop_last());
            assert(index_content_lines(content@) == all.drop_last());
        }
    } else {
        proof {
            assert(index_content_lines(content@) == all);
        }
    }
    let ghost lines = pieces@.map_values(|p: Vec<u8>| p@);
    proof {
        assert(lines == index_content_lines(content@));
    }
    let mut out: Vec<IndexEntry> = Vec::new();
    let mut i: usize = 0;
    proof {
        assert(lines.skip(0) =~= lines);
    }
    while i < pieces.len()
        invariant
            i <= pieces.len(),
            lines == pieces@.map_values(|p: Vec<u8>| p@),
            lines == index_content_lines(content@),
            parse_index_lines_spec(lines) == match parse_index_lines_spec(lines.skip(i as int)) {
                Ok(rest) => Ok::<Seq<IndexEntryV>, GyatError>(
                    out@.map_values(|e: IndexEntry| e@) + rest,
                ),
                Err(e) => Err::<Seq<IndexEntryV>, GyatError>(e),
            },
        decreases pieces.len() - i,
    {
        proof {
            assert(lines.skip(i as int)[0] == lines[i as int]);
            assert(lines[i as int] == pieces@[i as int]@);
            assert(lines.skip(i as int).skip(1) =~= lines.skip(i + 1));
        }
        match parse_index_line(&pieces[i]) {
            Err(e) => {
                return Err(e);
            },
            Ok(c) => {
                let ghost out0 = out@.map_values(|e: IndexEntry| e@);
                out.push(c);
                proof {
                    assert(out@.map_values(|e: IndexEntry| e@) =~= out0 + seq![c@]);
                    match parse_index_lines_spec(lines.skip(i + 1)) {
                        Ok(rest) => {
                            assert(out0 + (seq![c@] + rest) =~= (out0 + seq![c@]) + rest);
                        },
                        Err(_) => {},
                    }
                }
            },
        }
        i = i + 1;
    }
    proof {
        assert(lines.skip(i as int).len() == 0);
        assert(parse_index_lines_spec(lines.skip(i as int)) == Ok::<Seq<IndexEntryV>, GyatError>(
            Seq::empty(),
        ));
        assert(out@.map_values(|e: IndexEntry| e@) + Seq::<IndexEntryV>::empty() =~= out@.map_values(
            |e: IndexEntry| e@,
        ));
    }
    Ok(out)
}

/// What the surrounding program found at one path of the working tree.
#[derive(Debug, Clone, Copy, PartialEq, Eq, Structural)]
pub enum FsKind {
    File,
    Dir,
    Symlink,
}

/// One entry of a working-tree listing, as the traversal collaborator
/// reports it: a repo-relative path and what kind of thing it is.
#[derive(Debug)]
pub struct FsEntry {
    pub path: Vec<u8>,
    pub kind: FsKind,
}

/// The mathematical value of an `FsEntry`.
#[verifier::ext_equal]
pub struct FsEntryV {
    pub path: Seq<u8>,
    pub kind: FsKind,
}

impl View for FsEntry {
    type V = FsEntryV;

    open spec fn view(&self) -> FsEntryV {
        FsEntryV { path: self.path@, kind: self.kind }
    }
}

/// The paths of the entries a predicate keeps, in order.
pub open spec fn paths_of_kind(es: Seq<FsEntryV>, file: bool, dir: bool, sym: bool) -> Seq<Seq<u8>>
    decreases es.len(),
{
    if es.len() == 0 {
        Seq::empty()
    } else {
        let keep = match es.last().kind {
            FsKind::File => file,
            FsKind::Dir => dir,
            FsKind::Symlink => sym,
        };
        if keep {
            paths_of_kind(es.drop_last(), file, dir, sym).push(es.last().path)
        } else {
            paths_of_kind(es.drop_last(), file, dir, sym)
        }
    }
}

fn select_paths(entries: &Vec<FsEntry>, file: bool, dir: bool, sym: bool) -> (r: Vec<Vec<u8>>)
    ensures
        r@.map_values(|p: Vec<u8>| p@) == paths_of_kind(
            entries@.map_values(|e: FsEntry| e@),
            file,
            dir,
            sym,
        ),
{
    let ghost m = entries@.map_values(|e: FsEntry| e@);
    let mut r: Vec<Vec<u8>> = Vec::new();
    let mut i: usize = 0;
    proof {
        assert(m.take(0) =~= Seq::<FsEntryV>::empty());
        assert(r@.map_values(|p: Vec<u8>| p@) =~= paths_of_kind(m.take(0), file, dir, sym));
    }
    while i < entries.len()
        invariant
            i <= entries.len(),
            m == entries@.map_values(|e: FsEntry| e@),
            r@.map_values(|p: Vec<u8>| p@) == paths_of_kind(m.take(i as int), file, dir, sym),
        decreases entries.len() - i,
    {
        let keep = match entries[i].kind {
            FsKind::File => file,
            FsKind::Dir => dir,
            FsKind::Symlink => sym,
        };
        proof {
            let t = m.take(i + 1);
            assert(t.drop_last() =~= m.take(i as int));
            assert(t.last() == m[i as int]);
        }
        if keep {
            let ghost r0 = r@.map_values(|p: Vec<u8>| p@);
            let p = crate::bytes::copy_bytes(&entries[i].path);
            r.push(p);
            proof {
                assert(r@.map_values(|p: Vec<u8>| p@) =~= r0.push(m[i as int].path));
            }
        }
        i = i + 1;
    }
    proof {
        assert(m.take(i as int) =~= m);
    }
    r
}

/// Part a working-tree listing into its directories and the rest
/// (files and symlinks), in listing order.
pub fn get_files_and_dirs(entries: &Vec<FsEntry>) -> (r: (Vec<Vec<u8>>, Vec<Vec<u8>>))
    ensures
        r.0@.map_values(|p: Vec<u8>| p@) == paths_of_kind(
            entries@.map_values(|e: FsEntry| e@),
            false,
            true,
            false,
        ),
        r.1@.map_values(|p: Vec<u8>| p@) == paths_of_kind(
            entries@.map_values(|e: FsEntry| e@),
            true,
            false,
            true,
        ),
{
    let dirs = select_paths(entries, false, true, false);
    let files = select_paths(entries, true, false, true);
    (dirs, files)
}

/// The regular files and symlinks of a working-tree listing, in order.
pub fn get_files_and_syms(entries: &Vec<FsEntry>) -> (r: Vec<Vec<u8>>)
    ensures
        r@.map_values(|p: Vec<u8>| p@) == paths_of_kind(
            entries@.map_values(|e: FsEntry| e@),
            true,
            false,
            true,
        ),
{
    select_paths(entries, true, false, true)
}

/// The directories of a working-tree listing, in order.
pub fn get_dirs(entries: &Vec<FsEntry>) -> (r: Vec<Vec<u8>>)
    ensures
        r@.map_values(|p: Vec<u8>| p@) == paths_of_kind(
            entries@.map_values(|e: FsEntry| e@),
            false,
            true,
            false,
        ),
{
    select_paths(entries, false, true, false)
}

/// The components of a relative byte path after dropping empty and `.`
/// pieces and letting `..` swallow the component before it.
pub open spec fn normalize_comps(ps: Seq<Seq<u8>>) -> Seq<Seq<u8>>
    decreases ps.len(),
{
    if ps.len() == 0 {
        Seq::empty()
    } else {
        let prev = normalize_comps(ps.drop_last());
        let last = ps.last();
        if last.len() == 0 || last == seq![46u8] {
            prev
        } else if last == seq![46u8, 46u8] {
            if prev.len() == 0 {
                prev
            } else {
                prev.drop_last()
            }
        } else {
            prev.push(last)
        }
    }
}

/// What `normalize` yields: the path rebuilt from its normalized
/// components.
pub open spec fn normalize_spec(path: Seq<u8>) -> Seq<u8> {
    crate::bytes::join_spec(normalize_comps(split_spec(path, 47)), 47)
}

/// Normalize a relative byte path without looking at the file system:
/// drop `.` and empty components and resolve `..` against its parent.
pub fn normalize(path: &Vec<u8>) -> (r: Vec<u8>)
    ensures
        r@ == normalize_spec(path@),
{
    let pieces = split(path, 47);
    let ghost ps = pieces@.map_values(|p: Vec<u8>| p@);
    let mut comps: Vec<Vec<u8>> = Vec::new();
    let mut i: usize = 0;
    proof {
        assert(ps.take(0) =~= Seq::<Seq<u8>>::empty());
        assert(comps@.map_values(|p: Vec<u8>| p@) =~= normalize_comps(ps.take(0)));
    }
    while i < pieces.len()
        invariant
            i <= pieces.len(),
            ps == pieces@.map_values(|p: Vec<u8>| p@),
            comps@.map_values(|p: Vec<u8>| p@) == normalize_comps(ps.take(i as int)),
        decreases pieces.len() - i,
    {
        proof {
            let t = ps.take(i + 1);
            assert(t.drop_last() =~= ps.take(i as int));
            assert(t.last() == ps[i as int]);
            assert(ps[i as int] == pieces@[i as int]@);
        }
        let piece = &pieces[i];
        let is_empty = piece.len() == 0;
        let is_dot = piece.len() == 1 && piece[0] == 46;
        let is_dotdot = piece.len() == 2 && piece[0] == 46 && piece[1] == 46;
        proof {
            if is_dot {
                assert(ps[i as int] =~= seq![46u8]);
            }
            if is_dotdot {
                assert(ps[i as int] =~= seq![46u8, 46u8]);
            }
            if !is_empty && !is_dot {
                assert(ps[i as int] != seq![46u8]) by {
                    if ps[i as int] == seq![46u8] {
                        assert(ps[i as int].len() == 1 && ps[i as int][0] == 46);
                    }
                }
            }
            if !is_dotdot {
                assert(ps[i as int] != seq![46u8, 46u8]) by {
                    if ps[i as int] == seq![46u8, 46u8] {
                        assert(ps[i as int].len() == 2 && ps[i as int][0] == 46 && ps[i as int][1]
                            == 46);
                    }
                }
            }
        }
        if is_empty || is_dot {
        } else if is_dotdot {
            let ghost c0 = comps@.map_values(|p: Vec<u8>| p@);
            if comps.len() > 0 {
                comps.pop();
            }
            proof {
                if c0.len() > 0 {
                    assert(comps@.map_values(|p: Vec<u8>| p@) =~= c0.drop_last());
                }
            }
        } else {
            let ghost c0 = comps@.map_values(|p: Vec<u8>| p@);
            let c = crate::bytes::copy_bytes(piece);
            comps.push(c);
            proof {
                assert(comps@.map_values(|p: Vec<u8>| p@) =~= c0.push(ps[i as int]));
            }
        }
        i = i + 1;
    }
    proof {
        assert(ps.take(i as int) =~= ps);
    }
    crate::bytes::join(&comps, 47)
}


/// One file of a working-tree snapshot: its repo-relative path, whether
/// it is readonly, and its content.
#[derive(Debug)]
pub struct WorkFile {
    pub path: Vec<u8>,
    pub readonly: bool,
    pub content: Vec<u8>,
}

/// The mathematical value of a `WorkFile`.
#[verifier::ext_equal]
pub struct WorkFileV {
    pub path: Seq<u8>,
    pub readonly: bool,
    pub content: Seq<u8>,
}

impl View for WorkFile {
    type V = WorkFileV;

    open spec fn view(&self) -> WorkFileV {
        WorkFileV { path: self.path@, readonly: self.readonly, content: self.content@ }
    }
}

/// The content recorded for a path in a snapshot, front to back.
pub open spec fn wt_find(ws: Seq<WorkFileV>, path: Seq<u8>) -> Option<Seq<u8>>
    decreases ws.len(),
{
    if ws.len() == 0 {
        None
    } else if ws[0].path == path {
        Some(ws[0].content)
    } else {
        wt_find(ws.skip(1), path)
    }
}

/// Look a path up in a working-tree snapshot.
pub fn find_work_file(ws: &Vec<WorkFile>, path: &Vec<u8>) -> (r: Option<Vec<u8>>)
    ensures
        match r {
            Some(c) => wt_find(ws@.map_values(|w: WorkFile| w@), path@) == Some(c@),
            None => wt_find(ws@.map_values(|w: WorkFile| w@), path@) is None,
        },
{
    let ghost wv = ws@.map_values(|w: WorkFile| w@);
    proof {
        assert(wv.skip(0) =~= wv);
    }
    let mut i: usize = 0;
    while i < ws.len()
        invariant
            i <= ws.len(),
            wv == ws@.map_values(|w: WorkFile| w@),
            wt_find(wv, path@) == wt_find(wv.skip(i as int), path@),
        decreases ws.len() - i,
    {
        proof {
            assert(wv.skip(i as int)[0] == wv[i as int]);
            assert(wv[i as int] == ws@[i as int]@);
            assert(wv.skip(i as int).skip(1) =~= wv.skip(i + 1));
        }
        if crate::bytes::bytes_eq(&ws[i].path, path) {
            let c = crate::bytes::copy_bytes(&ws[i].content);
            return Some(c);
        }
        i = i + 1;
    }
    proof {
        assert(wv.skip(i as int).len() == 0);
    }
    None
}


/// One step of `see_changes` over the observed files: a path absent
/// from the blob set is New, one present with another hash is Mod (both
/// enter the directory tree), one present and unchanged is dropped;
/// matched paths leave the set.
pub open spec fn see_changes_walk(
    obs: Seq<(u8, Seq<u8>, Seq<u8>)>,
    bm: Seq<(Seq<u8>, Seq<u8>)>,
    t: crate::dirtree::TreeV,
) -> (Seq<(ChangeType, Seq<u8>)>, Seq<(Seq<u8>, Seq<u8>)>, crate::dirtree::TreeV)
    decreases obs.len(),
{
    if obs.len() == 0 {
        (Seq::empty(), bm, t)
    } else {
        let (perm, h, p) = obs[0];
        if crate::bytemap::has_key(bm, p) {
            if crate::bytemap::map_of(bm)[p] == h {
                see_changes_walk(obs.skip(1), crate::bytemap::remove_spec(bm, p), t)
            } else {
                let t2 = crate::dirtree::spec_add_path(t, p).0;
                let r = see_changes_walk(
                    obs.skip(1),
                    crate::bytemap::remove_spec(bm, p),
                    t2,
                );
                (seq![(ChangeType::Mod, p)] + r.0, r.1, r.2)
            }
        } else {
            let t2 = crate::dirtree::spec_add_path(t, p).0;
            let r = see_changes_walk(obs.skip(1), bm, t2);
            (seq![(ChangeType::New, p)] + r.0, r.1, r.2)
        }
    }
}

/// Deletion records for what is left of the blob set after the walk.
pub open spec fn see_changes_dels(bm: Seq<(Seq<u8>, Seq<u8>)>) -> Seq<(ChangeType, Seq<u8>)>
    decreases bm.len(),
{
    if bm.len() == 0 {
        Seq::empty()
    } else {
        seq![(ChangeType::Del, bm[0].0)] + see_changes_dels(bm.skip(1))
    }
}

/// Classify observed files against a previous blob set, seeding the
/// directory tree with the changed paths; the blob set is drained, and
/// what it still held is reported deleted.
pub fn see_changes(
    observed_files: &Vec<(u8, Vec<u8>, Vec<u8>)>,
    blob_map: &mut crate::bytemap::ByteMap,
    dirtree: &mut crate::dirtree::Tree,
) -> (r: Result<Vec<(ChangeType, Vec<u8>)>, crate::GyatError>)
    requires
        old(blob_map).wf(),
        old(dirtree).wf(),
    ensures
        final(blob_map).wf(),
        final(dirtree).wf(),
        final(blob_map)@.len() == 0,
        ({
            let obs = observed_files@.map_values(
                |o: (u8, Vec<u8>, Vec<u8>)| (o.0, o.1@, o.2@),
            );
            let w = see_changes_walk(obs, old(blob_map)@, old(dirtree)@);
            r matches Ok(cs) && cs@.map_values(|c: (ChangeType, Vec<u8>)| (c.0, c.1@)) == w.0
                + see_changes_dels(w.1) && final(dirtree)@ == w.2
        }),
{
    let ghost obs_v = observed_files@.map_values(|o: (u8, Vec<u8>, Vec<u8>)| (o.0, o.1@, o.2@));
    let ghost bm0 = blob_map@;
    let ghost t0 = dirtree@;
    let mut changes: Vec<(ChangeType, Vec<u8>)> = Vec::new();
    let mut i: usize = 0;
    proof {
        assert(obs_v.skip(0) =~= obs_v);
        assert(changes@.map_values(|c: (ChangeType, Vec<u8>)| (c.0, c.1@)) =~= Seq::<
            (ChangeType, Seq<u8>),
        >::empty());
    }
    while i < observed_files.len()
        invariant
            i <= observed_files.len(),
            blob_map.wf(),
            dirtree.wf(),
            obs_v == observed_files@.map_values(|o: (u8, Vec<u8>, Vec<u8>)| (o.0, o.1@, o.2@)),
            see_changes_walk(obs_v, bm0, t0) == {
                let w = see_changes_walk(obs_v.skip(i as int), blob_map@, dirtree@);
                (
                    changes@.map_values(|c: (ChangeType, Vec<u8>)| (c.0, c.1@)) + w.0,
                    w.1,
                    w.2,
                )
            },
        decreases observed_files.len() - i,
    {
        proof {
            assert(obs_v.skip(i as int)[0] == obs_v[i as int]);
            assert(obs_v[i as int] == (
                observed_files@[i as int].0,
                observed_files@[i as int].1@,
                observed_files@[i as int].2@,
            ));
            assert(obs_v.skip(i as int).skip(1) =~= obs_v.skip(i + 1));
        }
        let ghost cv = changes@.map_values(|c: (ChangeType, Vec<u8>)| (c.0, c.1@));
        let found = match blob_map.get(&observed_files[i].2) {
            Some(bh) => Some(crate::bytes::bytes_eq(bh, &observed_files[i].1)),
            None => None,
        };
        proof {
            crate::bytemap::lemma_map_of_contains(blob_map@, obs_v[i as int].2);
        }
        match found {
            Some(same) => {
                if !same {
                    dirtree.add_path(&observed_files[i].2);
                    let p2 = crate::bytes::copy_bytes(&observed_files[i].2);
                    changes.push((ChangeType::Mod, p2));
                    proof {
                        assert(changes@.map_values(|c: (ChangeType, Vec<u8>)| (c.0, c.1@))
                            =~= cv.push((ChangeType::Mod, obs_v[i as int].2)));
                        assert(forall|x: (ChangeType, Seq<u8>), r0: Seq<(ChangeType, Seq<u8>)>|
                            cv.push(x) + r0 =~= cv + (seq![x] + r0));
                    }
                }
                blob_map.remove(&observed_files[i].2);
            },
            None => {
                dirtree.add_path(&observed_files[i].2);
                let p2 = crate::bytes::copy_bytes(&observed_files[i].2);
                changes.push((ChangeType::New, p2));
                proof {
                    assert(changes@.map_values(|c: (ChangeType, Vec<u8>)| (c.0, c.1@)) =~= cv.push(
                        (ChangeType::New, obs_v[i as int].2),
                    ));
                    assert(forall|x: (ChangeType, Seq<u8>), r0: Seq<(ChangeType, Seq<u8>)>|
                        cv.push(x) + r0 =~= cv + (seq![x] + r0));
                }
            },
        }
        i = i + 1;
    }
    proof {
        assert(obs_v.skip(i as int).len() == 0);
        assert(changes@.map_values(|c: (ChangeType, Vec<u8>)| (c.0, c.1@)) + Seq::<
            (ChangeType, Seq<u8>),
        >::empty() =~= changes@.map_values(|c: (ChangeType, Vec<u8>)| (c.0, c.1@)));
    }
    let ghost w1 = see_changes_walk(obs_v, bm0, t0);
    let ghost remv = blob_map@;
    let mut d: usize = 0;
    proof {
        assert(remv.skip(0) =~= remv);
        let cvn = changes@.map_values(|c: (ChangeType, Vec<u8>)| (c.0, c.1@));
        assert(w1.0 == cvn);
        assert(cvn.skip(w1.0.len() as int) =~= Seq::<(ChangeType, Seq<u8>)>::empty());
        assert(cvn.take(w1.0.len() as int) =~= cvn);
        assert(see_changes_dels(remv) =~= cvn.skip(w1.0.len() as int) + see_changes_dels(
            remv.skip(0),
        ));
    }
    while d < blob_map.len()
        invariant
            d <= remv.len(),
            blob_map.wf(),
            remv == blob_map@,
            see_changes_dels(remv) == changes@.map_values(
                |c: (ChangeType, Vec<u8>)| (c.0, c.1@),
            ).skip(w1.0.len() as int) + see_changes_dels(remv.skip(d as int)),
            changes@.map_values(|c: (ChangeType, Vec<u8>)| (c.0, c.1@)).take(w1.0.len() as int)
                == w1.0,
            w1.0.len() <= changes@.len(),
        decreases remv.len() - d,
    {
        proof {
            assert(remv.skip(d as int)[0] == remv[d as int]);
            assert(remv.skip(d as int).skip(1) =~= remv.skip(d + 1));
        }
        let p2 = crate::bytes::copy_bytes(blob_map.key_at(d));
        let ghost cv = changes@.map_values(|c: (ChangeType, Vec<u8>)| (c.0, c.1@));
        changes.push((ChangeType::Del, p2));
        proof {
            let x = (ChangeType::Del, remv[d as int].0);
            assert(changes@.map_values(|c: (ChangeType, Vec<u8>)| (c.0, c.1@)) =~= cv.push(x));
            assert(cv.push(x).take(w1.0.len() as int) =~= cv.take(w1.0.len() as int));
            assert(cv.push(x).skip(w1.0.len() as int) =~= cv.skip(w1.0.len() as int) + seq![x]);
            assert(cv.skip(w1.0.len() as int) + seq![x] + see_changes_dels(remv.skip(d + 1))
                =~= cv.skip(w1.0.len() as int) + (seq![x] + see_changes_dels(remv.skip(d + 1))));
        }
        d = d + 1;
    }
    proof {
        assert(remv.skip(d as int).len() == 0);
        let cvn = changes@.map_values(|c: (ChangeType, Vec<u8>)| (c.0, c.1@));
        assert(cvn.skip(w1.0.len() as int) + Seq::<(ChangeType, Seq<u8>)>::empty() =~= cvn.skip(
            w1.0.len() as int,
        ));
        assert(cvn =~= cvn.take(w1.0.len() as int) + cvn.skip(w1.0.len() as int));
    }
    blob_map.clear();
    Ok(changes)
}

} // verus!
