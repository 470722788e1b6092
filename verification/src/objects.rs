//! Stored object records: blobs, trees and commits.
//!
//! A tree object is a text record, one child per line:
//! `<blob|tree>\t<40 hex chars>\t<name>\n`.  A commit object is a text
//! record with fixed field order (`Parent`, `Tree`, `Message`, `Date`,
//! `Changes`).  A blob object is the zlib-compressed file content.  The
//! encodings and parsers here are verified against exact specifications;
//! only the compressor itself is trusted.

use vstd::prelude::*;
use std::io::Read;
use std::io::Write;
use crate::GyatError;
use crate::bytes::{append_bytes, split, split_spec, trim, trim_spec};
use crate::hash::{hex_encode, hex_decode, is_valid_hex};

verus! {

/// Either a blob (file) or a tree (directory).
#[derive(Debug, Clone, Copy, PartialEq, Eq, Structural)]
pub enum FType {
    Blob,
    Tree,
}

/// One of a commit, a File(FType::Blob) or a File(FType::Tree).
#[derive(Debug, Clone, Copy, PartialEq, Eq, Structural)]
pub enum ObjType {
    Commit,
    File(FType),
}

/// A child record of a tree object: its kind, its raw 20-byte hash and
/// the path component it is stored under.
#[derive(Debug, PartialEq, Eq)]
pub struct FileObject {
    pub ftype: FType,
    pub hash: Vec<u8>,
    pub component: Vec<u8>,
}

/// The mathematical value of a `FileObject`.
#[verifier::ext_equal]
pub struct FileObjectV {
    pub ftype: FType,
    pub hash: Seq<u8>,
    pub component: Seq<u8>,
}

impl View for FileObject {
    type V = FileObjectV;

    open spec fn view(&self) -> FileObjectV {
        FileObjectV { ftype: self.ftype, hash: self.hash@, component: self.component@ }
    }
}

/// A commit object's links: the optional parent commit and the root tree,
/// both as raw 20-byte hashes.
#[derive(Debug, PartialEq, Eq)]
pub struct CommitObject {
    pub parent: Option<Vec<u8>>,
    pub root: Vec<u8>,
}

/// The mathematical value of a `CommitObject`.
#[verifier::ext_equal]
pub struct CommitObjectV {
    pub parent: Option<Seq<u8>>,
    pub root: Seq<u8>,
}

impl View for CommitObject {
    type V = CommitObjectV;

    open spec fn view(&self) -> CommitObjectV {
        CommitObjectV {
            parent: match self.parent {
                Some(ref p) => Some(p@),
                None => None,
            },
            root: self.root@,
        }
    }
}

/// The tag bytes of a child kind: `blob` or `tree`.
pub open spec fn kind_bytes(t: FType) -> Seq<u8> {
    match t {
        FType::Blob => seq![98u8, 108u8, 111u8, 98u8],
        FType::Tree => seq![116u8, 114u8, 101u8, 101u8],
    }
}

/// The tag bytes of a child kind, executably.
pub fn kind_label(t: FType) -> (r: Vec<u8>)
    ensures
        r@ == kind_bytes(t),
{
    let mut v: Vec<u8> = Vec::new();
    match t {
        FType::Blob => {
            v.push(98);
            v.push(108);
            v.push(111);
            v.push(98);
        },
        FType::Tree => {
            v.push(116);
            v.push(114);
            v.push(101);
            v.push(101);
        },
    }
    proof {
        assert(v@ =~= kind_bytes(t));
    }
    v
}

/// One line of a tree object: kind, tab, hex hash, tab, name, newline.
pub open spec fn encode_obj_line(c: FileObjectV) -> Seq<u8> {
    kind_bytes(c.ftype) + seq![9u8] + hex_encode(c.hash) + seq![9u8] + c.component + seq![10u8]
}

/// The whole tree object: the children's lines in order.
pub open spec fn encode_tree_spec(cs: Seq<FileObjectV>) -> Seq<u8>
    decreases cs.len(),
{
    if cs.len() == 0 {
        Seq::empty()
    } else {
        encode_tree_spec(cs.drop_last()) + encode_obj_line(cs.last())
    }
}

/// Encode the given children as the content of a tree object.  This does
/// no hashing and no storing: it only formats the data passed to it.
pub fn format_tree_content(children: &Vec<FileObject>) -> (r: Vec<u8>)
    ensures
        r@ == encode_tree_spec(children@.map_values(|c: FileObject| c@)),
{
    let ghost m = children@.map_values(|c: FileObject| c@);
    let mut r: Vec<u8> = Vec::new();
    let mut i: usize = 0;
    proof {
        assert(m.take(0) =~= Seq::<FileObjectV>::empty());
    }
    while i < children.len()
        invariant
            i <= children.len(),
            m == children@.map_values(|c: FileObject| c@),
            r@ == encode_tree_spec(m.take(i as int)),
        decreases children.len() - i,
    {
        let label = kind_label(children[i].ftype);
        append_bytes(&mut r, &label);
        r.push(9);
        let hx = crate::hash::to_string(&children[i].hash);
        append_bytes(&mut r, &hx);
        r.push(9);
        append_bytes(&mut r, &children[i].component);
        r.push(10);
        proof {
            let t = m.take(i + 1);
            assert(t.drop_last() =~= m.take(i as int));
            assert(t.last() == m[i as int]);
            assert(r@ =~= encode_tree_spec(m.take(i as int)) + encode_obj_line(m[i as int]));
        }
        i = i + 1;
    }
    proof {
        assert(m.take(i as int) =~= m);
    }
    r
}

/// What parsing one (already line-split) tree record line yields: the
/// line is trimmed and cut at tabs; the first field must read `blob` or
/// `tree`, the second must decode to at least 20 hash bytes, and the
/// third is the name.  Anything else is malformed.
pub open spec fn parse_obj_line_spec(line: Seq<u8>) -> Result<FileObjectV, GyatError> {
    let parts = split_spec(trim_spec(line), 9);
    let kind = trim_spec(parts[0]);
    if kind != kind_bytes(FType::Blob) && kind != kind_bytes(FType::Tree) {
        Err(GyatError::FormatError)
    } else if parts.len() < 2 {
        Err(GyatError::FormatError)
    } else if !(is_valid_hex(parts[1]) && hex_decode(parts[1]).len() >= 20) {
        Err(GyatError::HashDecodeError)
    } else if parts.len() < 3 {
        Err(GyatError::FormatError)
    } else {
        Ok(
            FileObjectV {
                ftype: if kind == kind_bytes(FType::Blob) {
                    FType::Blob
                } else {
                    FType::Tree
                },
                hash: hex_decode(parts[1]).take(20),
                component: parts[2],
            },
        )
    }
}

/// Parse one tree record line.
pub fn parse_obj_line(line: &Vec<u8>) -> (r: Result<FileObject, GyatError>)
    ensures
        r matches Ok(c) ==> parse_obj_line_spec(line@) matches Ok(cv) && c@ == cv,
        r matches Err(e) ==> parse_obj_line_spec(line@) matches Err(e2) && e == e2,
{
    let trimmed = trim(line);
    let parts = split(&trimmed, 9);
    proof {
        assert(parts@.map_values(|p: Vec<u8>| p@)[0] == parts@[0]@);
    }
    let kind = trim(&parts[0]);
    let is_blob = crate::bytes::bytes_eq(&kind, &kind_label(FType::Blob));
    let is_tree = crate::bytes::bytes_eq(&kind, &kind_label(FType::Tree));
    if !is_blob && !is_tree {
        return Err(GyatError::FormatError);
    }
    if parts.len() < 2 {
        return Err(GyatError::FormatError);
    }
    proof {
        assert(parts@.map_values(|p: Vec<u8>| p@)[1] == parts@[1]@);
    }
    let hash = match crate::hash::from_string(&parts[1]) {
        Ok(h) => h,
        Err(e) => {
            return Err(e);
        },
    };
    if parts.len() < 3 {
        return Err(GyatError::FormatError);
    }
    proof {
        assert(parts@.map_values(|p: Vec<u8>| p@)[2] == parts@[2]@);
    }
    let component = crate::bytes::copy_bytes(&parts[2]);
    Ok(
        FileObject {
            ftype: if is_blob {
                FType::Blob
            } else {
                FType::Tree
            },
            hash,
            component,
        },
    )
}

/// Parsing a sequence of record lines: the first malformed line's error
/// wins; otherwise all records in order.
pub open spec fn parse_tree_lines_spec(lines: Seq<Seq<u8>>) -> Result<Seq<FileObjectV>, GyatError>
    decreases lines.len(),
{
    if lines.len() == 0 {
        Ok(Seq::empty())
    } else {
        match parse_obj_line_spec(lines[0]) {
            Err(e) => Err(e),
            Ok(c) => match parse_tree_lines_spec(lines.skip(1)) {
                Err(e) => Err(e),
                Ok(rest) => Ok(seq![c] + rest),
            },
        }
    }
}

/// The record lines of a stored tree object: the content split at
/// newlines, with the empty piece after a final newline dropped.
pub open spec fn tree_content_lines(s: Seq<u8>) -> Seq<Seq<u8>> {
    let pieces = split_spec(s, 10);
    if pieces.last() == Seq::<u8>::empty() {
        pieces.drop_last()
    } else {
        pieces
    }
}

/// What parsing a whole tree object's content yields.
pub open spec fn parse_tree_spec(s: Seq<u8>) -> Result<Seq<FileObjectV>, GyatError> {
    parse_tree_lines_spec(tree_content_lines(s))
}

/// Parse the content of a tree object into its child records.
pub fn parse_tree_content(content: &Vec<u8>) -> (r: Result<Vec<FileObject>, GyatError>)
    ensures
        r matches Ok(cs) ==> parse_tree_spec(content@) matches Ok(csv) && cs@.map_values(
            |c: FileObject| c@,
        ) == csv,
        r matches Err(e) ==> parse_tree_spec(content@) matches Err(e2) && e == e2,
{
    let mut pieces = split(content, 10);
    let ghost all = pieces@.map_values(|p: Vec<u8>| p@);
    proof {
        crate::bytes::lemma_split_spec_len(content@, 10);
        assert(all.last() == pieces@[all.len() - 1]@);
    }
    if pieces[pieces.len() - 1].len() == 0 {
        pieces.pop();
        proof {
            assert(all.last() =~= Seq::<u8>::empty());
            assert(pieces@.map_values(|p: Vec<u8>| p@) =~= all.drop_last());
            assert(tree_content_lines(content@) == all.drop_last());
        }
    } else {
        proof {
            assert(tree_content_lines(content@) == all);
        }
    }
    let ghost lines = pieces@.map_values(|p: Vec<u8>| p@);
    proof {
        assert(lines == tree_content_lines(content@));
    }
    let mut out: Vec<FileObject> = Vec::new();
    let mut i: usize = 0;
    proof {
        assert(lines.skip(0) =~= lines);
    }
    while i < pieces.len()
        invariant
            i <= pieces.len(),
            lines == pieces@.map_values(|p: Vec<u8>| p@),
            lines == tree_content_lines(content@),
            parse_tree_lines_spec(lines) == match parse_tree_lines_spec(lines.skip(i as int)) {
                Ok(rest) => Ok::<Seq<FileObjectV>, GyatError>(
                    out@.map_values(|c: FileObject| c@) + rest,
                ),
                Err(e) => Err::<Seq<FileObjectV>, GyatError>(e),
            },
        decreases pieces.len() - i,
    {
        proof {
            assert(lines.skip(i as int)[0] == lines[i as int]);
            assert(lines[i as int] == pieces@[i as int]@);
            assert(lines.skip(i as int).skip(1) =~= lines.skip(i + 1));
        }
        match parse_obj_line(&pieces[i]) {
            Err(e) => {
                return Err(e);
            },
            Ok(c) => {
                let ghost out0 = out@.map_values(|c: FileObject| c@);
                out.push(c);
                proof {
                    assert(out@.map_values(|c: FileObject| c@) =~= out0 + seq![c@]);
                    match parse_tree_lines_spec(lines.skip(i + 1)) {
                        Ok(rest) => {
                            assert(out0 + (seq![c@] + rest) =~= (out0 + seq![c@]) + rest);
                        },
                        Err(_) => {},
                    }
                }
            },
        }
        i = i + 1;
    }
    proof {
        assert(lines.skip(i as int).len() == 0);
        assert(parse_tree_lines_spec(lines.skip(i as int)) == Ok::<Seq<FileObjectV>, GyatError>(
            Seq::empty(),
        ));
        assert(out@.map_values(|c: FileObject| c@) + Seq::<FileObjectV>::empty() =~= out@.map_values(
            |c: FileObject| c@,
        ));
    }
    Ok(out)
}

/// What the zlib compressor in the flate2 crate produces for a byte
/// string.  The result depends on the content alone.
pub uninterp spec fn deflate_of(content: Seq<u8>) -> Seq<u8>;

/// What the zlib decompressor in the flate2 crate recovers from a byte
/// string, where it succeeds.  The result depends on the content alone.
pub uninterp spec fn inflate_of(compressed: Seq<u8>) -> Seq<u8>;

/// Relies on flate2's ZlibEncoder: compresses losslessly, so its own
/// decoder recovers exactly the input.
#[verifier::external_body]
pub fn format_blob_content(blob_source: &Vec<u8>) -> (r: Vec<u8>)
    ensures
        r@ == deflate_of(blob_source@),
        inflate_of(r@) == blob_source@,
{
    let mut encoder = flate2::write::ZlibEncoder::new(Vec::new(), flate2::Compression::default());
    if encoder.write_all(blob_source.as_slice()).is_err() {
        return Vec::new();
    }
    encoder.finish().unwrap_or_default()
}

/// Relies on flate2's ZlibDecoder: recovers the compressed stream where
/// it is well-formed; in particular it succeeds on every ZlibEncoder
/// output.
#[verifier::external_body]
fn zlib_decompress(compressed: &Vec<u8>) -> (r: Option<Vec<u8>>)
    ensures
        r matches Some(c) ==> c@ == inflate_of(compressed@),
        r is Some <== exists|s: Seq<u8>| compressed@ == deflate_of(s),
        r matches Some(c) ==> forall|s: Seq<u8>|
            compressed@ == #[trigger] deflate_of(s) ==> c@ == s,
{
    let mut decoder = flate2::read::ZlibDecoder::new(compressed.as_slice());
    let mut content = Vec::new();
    match decoder.read_to_end(&mut content) {
        Ok(_) => Some(content),
        Err(_) => None,
    }
}


/// The `Parent: ` field label.
pub open spec fn parent_label_spec() -> Seq<u8> {
    seq![80u8, 97u8, 114u8, 101u8, 110u8, 116u8, 58u8, 32u8]
}

/// The `Tree: ` field label.
pub open spec fn tree_label_spec() -> Seq<u8> {
    seq![84u8, 114u8, 101u8, 101u8, 58u8, 32u8]
}

/// The `Message: ` field label.
pub open spec fn message_label_spec() -> Seq<u8> {
    seq![77u8, 101u8, 115u8, 115u8, 97u8, 103u8, 101u8, 58u8, 32u8]
}

/// The `Date: ` field label.
pub open spec fn date_label_spec() -> Seq<u8> {
    seq![68u8, 97u8, 116u8, 101u8, 58u8, 32u8]
}

/// The `Changes:` heading.
pub open spec fn changes_label_spec() -> Seq<u8> {
    seq![67u8, 104u8, 97u8, 110u8, 103u8, 101u8, 115u8, 58u8]
}

/// One recorded change line of a commit: kind, tab, path, newline.
pub open spec fn encode_change_line(c: crate::fs::ChangeType, path: Seq<u8>) -> Seq<u8> {
    crate::fs::change_bytes(c) + seq![9u8] + path + seq![10u8]
}

/// The recorded change lines of a commit, in index order.
pub open spec fn encode_changes_spec(es: Seq<crate::fs::IndexEntryV>) -> Seq<u8>
    decreases es.len(),
{
    if es.len() == 0 {
        Seq::empty()
    } else {
        encode_changes_spec(es.drop_last()) + encode_change_line(es.last().change, es.last().path)
    }
}

/// The whole commit object text: fixed field order, one field per line,
/// then the change list.  The parent field holds the parent commit hash
/// in hex, or `0` for the first commit.
pub open spec fn encode_commit_spec(
    parent_hex: Option<Seq<u8>>,
    root_hex: Seq<u8>,
    message: Seq<u8>,
    date: Seq<u8>,
    changes: Seq<crate::fs::IndexEntryV>,
) -> Seq<u8> {
    parent_label_spec() + (match parent_hex {
        Some(p) => p,
        None => seq![48u8],
    }) + seq![10u8] + tree_label_spec() + root_hex + seq![10u8] + message_label_spec() + message
        + seq![10u8] + date_label_spec() + date + seq![10u8] + changes_label_spec() + seq![10u8]
        + encode_changes_spec(changes)
}

fn push_label(dst: &mut Vec<u8>, which: u8)
    requires
        which < 5,
    ensures
        final(dst)@ == old(dst)@ + (if which == 0 {
            parent_label_spec()
        } else if which == 1 {
            tree_label_spec()
        } else if which == 2 {
            message_label_spec()
        } else if which == 3 {
            date_label_spec()
        } else {
            changes_label_spec()
        }),
{
    let ghost d0 = dst@;
    if which == 0 {
        dst.push(80);
        dst.push(97);
        dst.push(114);
        dst.push(101);
        dst.push(110);
        dst.push(116);
        dst.push(58);
        dst.push(32);
        proof {
            assert(dst@ =~= d0 + parent_label_spec());
        }
    } else if which == 1 {
        dst.push(84);
        dst.push(114);
        dst.push(101);
        dst.push(101);
        dst.push(58);
        dst.push(32);
        proof {
            assert(dst@ =~= d0 + tree_label_spec());
        }
    } else if which == 2 {
        dst.push(77);
        dst.push(101);
        dst.push(115);
        dst.push(115);
        dst.push(97);
        dst.push(103);
        dst.push(101);
        dst.push(58);
        dst.push(32);
        proof {
            assert(dst@ =~= d0 + message_label_spec());
        }
    } else if which == 3 {
        dst.push(68);
        dst.push(97);
        dst.push(116);
        dst.push(101);
        dst.push(58);
        dst.push(32);
        proof {
            assert(dst@ =~= d0 + date_label_spec());
        }
    } else {
        dst.push(67);
        dst.push(104);
        dst.push(97);
        dst.push(110);
        dst.push(103);
        dst.push(101);
        dst.push(115);
        dst.push(58);
        proof {
            assert(dst@ =~= d0 + changes_label_spec());
        }
    }
}

/// Encode a commit object's text from its fields and recorded changes.
pub fn format_commit_content(
    parent_hex: &Option<Vec<u8>>,
    root_hex: &Vec<u8>,
    message: &Vec<u8>,
    date: &Vec<u8>,
    changes: &Vec<crate::fs::IndexEntry>,
) -> (r: Vec<u8>)
    ensures
        r@ == encode_commit_spec(
            match parent_hex {
                Some(p) => Some(p@),
                None => None,
            },
            root_hex@,
            message@,
            date@,
            changes@.map_values(|e: crate::fs::IndexEntry| e@),
        ),
{
    let ghost m = changes@.map_values(|e: crate::fs::IndexEntry| e@);
    let mut r: Vec<u8> = Vec::new();
    push_label(&mut r, 0);
    match parent_hex {
        Some(p) => append_bytes(&mut r, p),
        None => r.push(48),
    }
    r.push(10);
    push_label(&mut r, 1);
    append_bytes(&mut r, root_hex);
    r.push(10);
    push_label(&mut r, 2);
    append_bytes(&mut r, message);
    r.push(10);
    push_label(&mut r, 3);
    append_bytes(&mut r, date);
    r.push(10);
    push_label(&mut r, 4);
    r.push(10);
    let ghost head = r@;
    proof {
        assert(head =~= parent_label_spec() + (match parent_hex {
            Some(p) => p@,
            None => seq![48u8],
        }) + seq![10u8] + tree_label_spec() + root_hex@ + seq![10u8] + message_label_spec()
            + message@ + seq![10u8] + date_label_spec() + date@ + seq![10u8] + changes_label_spec()
            + seq![10u8]);
        assert(m.take(0) =~= Seq::<crate::fs::IndexEntryV>::empty());
        assert(r@ =~= head + encode_changes_spec(m.take(0)));
    }
    let mut i: usize = 0;
    while i < changes.len()
        invariant
            i <= changes.len(),
            m == changes@.map_values(|e: crate::fs::IndexEntry| e@),
            r@ == head + encode_changes_spec(m.take(i as int)),
        decreases changes.len() - i,
    {
        let label = crate::fs::change_label(changes[i].change);
        append_bytes(&mut r, &label);
        r.push(9);
        append_bytes(&mut r, &changes[i].path);
        r.push(10);
        proof {
            let t = m.take(i + 1);
            assert(t.drop_last() =~= m.take(i as int));
            assert(t.last() == m[i as int]);
            assert(r@ =~= head + (encode_changes_spec(m.take(i as int)) + encode_change_line(
                m[i as int].change,
                m[i as int].path,
            )));
        }
        i = i + 1;
    }
    proof {
        assert(m.take(i as int) =~= m);
        assert(r@ =~= encode_commit_spec(
            match parent_hex {
                Some(p) => Some(p@),
                None => None,
            },
            root_hex@,
            message@,
            date@,
            m,
        ));
    }
    r
}

/// What parsing a commit object's text yields: the parent hash from the
/// first line (a field shorter than 20 characters means no parent) and
/// the root tree hash from the second.
pub open spec fn parse_commit_spec(s: Seq<u8>) -> Result<CommitObjectV, GyatError> {
    let lines = split_spec(s, 10);
    if s.len() == 0 || lines.len() < 2 || (lines.len() == 2 && lines[1].len() == 0) {
        Err(GyatError::FormatError)
    } else {
        let parts1 = split_spec(lines[0], 58);
        if parts1.len() < 2 {
            Err(GyatError::FormatError)
        } else {
            let p1 = trim_spec(parts1[1]);
            if p1.len() >= 20 && !(is_valid_hex(p1) && hex_decode(p1).len() >= 20) {
                Err(GyatError::HashDecodeError)
            } else {
                let parts2 = split_spec(lines[1], 58);
                if parts2.len() < 2 {
                    Err(GyatError::FormatError)
                } else {
                    let p2 = trim_spec(parts2[1]);
                    if !(is_valid_hex(p2) && hex_decode(p2).len() >= 20) {
                        Err(GyatError::HashDecodeError)
                    } else {
                        Ok(
                            CommitObjectV {
                                parent: if p1.len() < 20 {
                                    None
                                } else {
                                    Some(hex_decode(p1).take(20))
                                },
                                root: hex_decode(p2).take(20),
                            },
                        )
                    }
                }
            }
        }
    }
}

/// Parse a commit object's text.
pub fn parse_commit_content(content: &Vec<u8>) -> (r: Result<CommitObject, GyatError>)
    ensures
        r matches Ok(c) ==> parse_commit_spec(content@) matches Ok(cv) && c@ == cv,
        r matches Err(e) ==> parse_commit_spec(content@) matches Err(e2) && e == e2,
{
    let lines = split(content, 10);
    let ghost lv = lines@.map_values(|p: Vec<u8>| p@);
    proof {
        crate::bytes::lemma_split_spec_len(content@, 10);
        assert(lv[0] == lines@[0]@);
    }
    if content.len() == 0 || lines.len() < 2 {
        return Err(GyatError::FormatError);
    }
    proof {
        assert(lv[1] == lines@[1]@);
    }
    if lines.len() == 2 && lines[1].len() == 0 {
        return Err(GyatError::FormatError);
    }
    let parts1 = split(&lines[0], 58);
    proof {
        assert(parts1@.map_values(|p: Vec<u8>| p@)[0] == parts1@[0]@);
    }
    if parts1.len() < 2 {
        return Err(GyatError::FormatError);
    }
    proof {
        assert(parts1@.map_values(|p: Vec<u8>| p@)[1] == parts1@[1]@);
    }
    let p1 = trim(&parts1[1]);
    let parent: Option<Vec<u8>> = if p1.len() < 20 {
        None
    } else {
        match crate::hash::from_string(&p1) {
            Ok(h) => Some(h),
            Err(e) => {
                return Err(e);
            },
        }
    };
    let parts2 = split(&lines[1], 58);
    if parts2.len() < 2 {
        return Err(GyatError::FormatError);
    }
    proof {
        assert(parts2@.map_values(|p: Vec<u8>| p@)[1] == parts2@[1]@);
    }
    let p2 = trim(&parts2[1]);
    let root = match crate::hash::from_string(&p2) {
        Ok(h) => h,
        Err(e) => {
            return Err(e);
        },
    };
    Ok(CommitObject { parent, root })
}


/// A child's full repo-relative path under a prefix.
pub open spec fn path_join(prefix: Seq<u8>, name: Seq<u8>) -> Seq<u8> {
    if prefix.len() == 0 {
        name
    } else {
        prefix + seq![47u8] + name
    }
}

/// Join a path prefix and a name with `/`, executably.
pub fn join_path(prefix: &Vec<u8>, name: &Vec<u8>) -> (r: Vec<u8>)
    ensures
        r@ == path_join(prefix@, name@),
{
    if prefix.len() == 0 {
        crate::bytes::copy_bytes(name)
    } else {
        let mut r = crate::bytes::copy_bytes(prefix);
        r.push(47);
        append_bytes(&mut r, name);
        proof {
            assert(r@ =~= path_join(prefix@, name@));
        }
        r
    }
}

/// Expanding one stored tree into leaf (path, blob hash) entries: the
/// tree is looked up and parsed, then its children are walked in order.
/// The fuel bounds the nesting of trees; `get_blobs_from_root` starts it
/// at the number of stored tree objects, which only a reference cycle
/// could exhaust, and content addressing rules such a cycle out.
pub open spec fn flatten_tree_spec(
    dirs: Map<Seq<u8>, Seq<u8>>,
    key_hex: Seq<u8>,
    prefix: Seq<u8>,
    acc: Seq<(Seq<u8>, Seq<u8>)>,
    fuel: nat,
) -> Result<Seq<(Seq<u8>, Seq<u8>)>, GyatError>
    decreases fuel, 0int, 0int,
{
    if !dirs.contains_key(key_hex) {
        Err(GyatError::NotFound)
    } else if fuel == 0 {
        Err(GyatError::FormatError)
    } else {
        match parse_tree_spec(dirs[key_hex]) {
            Err(e) => Err(e),
            Ok(children) => flatten_children_spec(dirs, children, prefix, acc, (fuel - 1) as nat),
        }
    }
}

/// Walking a parsed child list: a blob child records its path and hash,
/// a tree child is expanded recursively under its path.
pub open spec fn flatten_children_spec(
    dirs: Map<Seq<u8>, Seq<u8>>,
    children: Seq<FileObjectV>,
    prefix: Seq<u8>,
    acc: Seq<(Seq<u8>, Seq<u8>)>,
    fuel: nat,
) -> Result<Seq<(Seq<u8>, Seq<u8>)>, GyatError>
    decreases fuel, 1int, children.len(),
{
    if children.len() == 0 {
        Ok(acc)
    } else {
        let c = children[0];
        match c.ftype {
            FType::Blob => flatten_children_spec(
                dirs,
                children.skip(1),
                prefix,
                crate::bytemap::set_spec(acc, path_join(prefix, c.component), c.hash),
                fuel,
            ),
            FType::Tree => match flatten_tree_spec(
                dirs,
                hex_encode(c.hash),
                path_join(prefix, c.component),
                acc,
                fuel,
            ) {
                Err(e) => Err(e),
                Ok(acc2) => flatten_children_spec(dirs, children.skip(1), prefix, acc2, fuel),
            },
        }
    }
}

fn flatten_tree(
    store: &crate::store::ObjectStore,
    key_hex: &Vec<u8>,
    prefix: &Vec<u8>,
    acc: &mut crate::bytemap::ByteMap,
    fuel: usize,
) -> (r: Result<(), GyatError>)
    requires
        store.wf(),
        old(acc).wf(),
    ensures
        final(acc).wf(),
        ({
            let res = flatten_tree_spec(
                store.dirs.as_map(),
                key_hex@,
                prefix@,
                old(acc)@,
                fuel as nat,
            );
            match r {
                Ok(_) => res matches Ok(out) && final(acc)@ == out,
                Err(e) => res matches Err(e2) && e == e2,
            }
        }),
    decreases fuel,
{
    let content = match store.dirs.get(key_hex) {
        None => {
            return Err(GyatError::NotFound);
        },
        Some(c) => c,
    };
    if fuel == 0 {
        return Err(GyatError::FormatError);
    }
    let children = match parse_tree_content(content) {
        Err(e) => {
            return Err(e);
        },
        Ok(cs) => cs,
    };
    let ghost dirs = store.dirs.as_map();
    let ghost cv = children@.map_values(|c: FileObject| c@);
    let ghost f1 = (fuel - 1) as nat;
    let ghost acc0 = acc@;
    let mut i: usize = 0;
    proof {
        assert(cv.skip(0) =~= cv);
    }
    while i < children.len()
        invariant
            i <= children.len(),
            store.wf(),
            acc.wf(),
            cv == children@.map_values(|c: FileObject| c@),
            dirs == store.dirs.as_map(),
            flatten_children_spec(dirs, cv, prefix@, acc0, f1) == flatten_children_spec(
                dirs,
                cv.skip(i as int),
                prefix@,
                acc@,
                f1,
            ),
            flatten_tree_spec(dirs, key_hex@, prefix@, acc0, fuel as nat)
                == flatten_children_spec(dirs, cv, prefix@, acc0, f1),
            acc0 == old(acc)@,
            fuel >= 1,
            f1 == (fuel - 1) as nat,
        decreases children.len() - i,
    {
        proof {
            assert(cv.skip(i as int)[0] == cv[i as int]);
            assert(cv[i as int] == children@[i as int]@);
            assert(cv.skip(i as int).skip(1) =~= cv.skip(i + 1));
        }
        let p = join_path(prefix, &children[i].component);
        match children[i].ftype {
            FType::Blob => {
                let hv = crate::bytes::copy_bytes(&children[i].hash);
                acc.set(p, hv);
            },
            FType::Tree => {
                let ck = crate::hash::to_string(&children[i].hash);
                match flatten_tree(store, &ck, &p, acc, fuel - 1) {
                    Err(e) => {
                        return Err(e);
                    },
                    Ok(_) => {},
                }
            },
        }
        i = i + 1;
    }
    proof {
        assert(cv.skip(i as int).len() == 0);
    }
    Ok(())
}

/// Expand a root tree into the full mapping from repo-relative path to
/// blob hash (raw 20 bytes), by walking tree objects depth first.  Fails
/// with the first missing or malformed tree encountered.
pub fn get_blobs_from_root(store: &crate::store::ObjectStore, root_hash: &Vec<u8>) -> (r: Result<
    crate::bytemap::ByteMap,
    GyatError,
>)
    requires
        store.wf(),
    ensures
        ({
            let res = flatten_tree_spec(
                store.dirs.as_map(),
                hex_encode(root_hash@),
                Seq::<u8>::empty(),
                Seq::<(Seq<u8>, Seq<u8>)>::empty(),
                store.dirs@.len(),
            );
            match r {
                Ok(m) => res matches Ok(out) && m@ == out && m.wf(),
                Err(e) => res matches Err(e2) && e == e2,
            }
        }),
{
    let key = crate::hash::to_string(root_hash);
    let mut acc = crate::bytemap::ByteMap::new();
    let prefix: Vec<u8> = Vec::new();
    let fuel = store.dirs.len();
    match flatten_tree(store, &key, &prefix, &mut acc, fuel) {
        Ok(_) => Ok(acc),
        Err(e) => Err(e),
    }
}

/// Read the stored content of a blob object back: fails with NotFound
/// when no object has that hash, recovers the uncompressed content
/// otherwise, and in particular returns exactly what `write_blob`
/// stored.  Content that legitimately ends in null bytes comes back
/// intact: trimming trailing zeroes here would corrupt such files, so
/// none happens.
pub fn read_blob(store: &crate::store::ObjectStore, blob_hash: &Vec<u8>) -> (r: Result<
    Vec<u8>,
    GyatError,
>)
    requires
        store.wf(),
    ensures
        !store.files.as_map().contains_key(hex_encode(blob_hash@)) ==> r == Err::<
            Vec<u8>,
            GyatError,
        >(GyatError::NotFound),
        store.files.as_map().contains_key(hex_encode(blob_hash@)) ==> match r {
            Ok(c) => c@ == inflate_of(store.files.as_map()[hex_encode(blob_hash@)]),
            Err(e) => e == GyatError::FormatError,
        },
        forall|s: Seq<u8>|
            store.files.as_map().contains_key(hex_encode(blob_hash@))
                && store.files.as_map()[hex_encode(blob_hash@)] == #[trigger] deflate_of(s) ==> (
            r matches Ok(c) && c@ == s),
{
    let key = crate::hash::to_string(blob_hash);
    let compressed = match store.files.get(&key) {
        None => {
            return Err(GyatError::NotFound);
        },
        Some(c) => c,
    };
    match zlib_decompress(compressed) {
        Some(content) => Ok(content),
        None => Err(GyatError::FormatError),
    }
}

/// Read the child records of a stored tree object: fails with NotFound
/// when no tree has that hash, and with the parser's error on a
/// malformed record.
pub fn read_tree_content(store: &crate::store::ObjectStore, tree_hash: &Vec<u8>) -> (r: Result<
    Vec<FileObject>,
    GyatError,
>)
    requires
        store.wf(),
    ensures
        !store.dirs.as_map().contains_key(hex_encode(tree_hash@)) ==> r == Err::<
            Vec<FileObject>,
            GyatError,
        >(GyatError::NotFound),
        store.dirs.as_map().contains_key(hex_encode(tree_hash@)) ==> match parse_tree_spec(
            store.dirs.as_map()[hex_encode(tree_hash@)],
        ) {
            Ok(csv) => r matches Ok(cs) && cs@.map_values(|c: FileObject| c@) == csv,
            Err(e) => r == Err::<Vec<FileObject>, GyatError>(e),
        },
{
    let key = crate::hash::to_string(tree_hash);
    let content = match store.dirs.get(&key) {
        None => {
            return Err(GyatError::NotFound);
        },
        Some(c) => c,
    };
    parse_tree_content(content)
}

/// Read a commit object's links back: fails with NotFound when no
/// commit has that hash, and with the parser's error on a malformed
/// record.
pub fn read_commit_content(store: &crate::store::ObjectStore, commit_hash: &Vec<u8>) -> (r: Result<
    CommitObject,
    GyatError,
>)
    requires
        store.wf(),
    ensures
        !store.commits.as_map().contains_key(hex_encode(commit_hash@)) ==> r == Err::<
            CommitObject,
            GyatError,
        >(GyatError::NotFound),
        store.commits.as_map().contains_key(hex_encode(commit_hash@)) ==> match parse_commit_spec(
            store.commits.as_map()[hex_encode(commit_hash@)],
        ) {
            Ok(cv) => r matches Ok(c) && c@ == cv,
            Err(e) => r == Err::<CommitObject, GyatError>(e),
        },
{
    let key = crate::hash::to_string(commit_hash);
    let content = match store.commits.get(&key) {
        None => {
            return Err(GyatError::NotFound);
        },
        Some(c) => c,
    };
    parse_commit_content(content)
}


/// A component a tree line can carry faithfully: non-empty, free of
/// tabs and line breaks, not starting or ending blank.
pub open spec fn wf_component(c: Seq<u8>) -> bool {
    &&& c.len() > 0
    &&& forall|i: int| 0 <= i < c.len() ==> #[trigger] c[i] != 9 && c[i] != 10
    &&& !crate::bytes::is_blank(c[0])
    &&& !crate::bytes::is_blank(c[c.len() - 1])
}

/// A child record the tree codec round-trips: a 20-byte hash under a
/// well-formed component name.
pub open spec fn wf_child(c: FileObjectV) -> bool {
    c.hash.len() == 20 && wf_component(c.component)
}

/// One line of a tree object without its closing newline.
pub open spec fn obj_line_body(c: FileObjectV) -> Seq<u8> {
    kind_bytes(c.ftype) + seq![9u8] + hex_encode(c.hash) + seq![9u8] + c.component
}

#[verifier::rlimit(100)]
#[verifier::spinoff_prover]
proof fn lemma_obj_line_fields(c: FileObjectV)
    requires
        wf_child(c),
    ensures
        split_spec(obj_line_body(c), 9) == seq![
            kind_bytes(c.ftype),
            hex_encode(c.hash),
            c.component,
        ],
        trim_spec(obj_line_body(c)) == obj_line_body(c),
{
    let body = obj_line_body(c);
    let kb = kind_bytes(c.ftype);
    let hx = hex_encode(c.hash);
    crate::hash::lemma_hex_round_trip(c.hash);
    assert(body[0] == kb[0]);
    assert(body[body.len() - 1] == c.component[c.component.len() - 1]);
    crate::bytes::lemma_trim_noop(body);
    assert(forall|i: int| 0 <= i < kb.len() ==> #[trigger] kb[i] != 9);
    assert(forall|i: int|
        0 <= i < hx.len() ==> crate::hash::is_hex_char(#[trigger] hx[i]));
    assert(forall|i: int| 0 <= i < hx.len() ==> #[trigger] hx[i] != 9);
    crate::bytes::lemma_split_no_sep(kb, 9);
    crate::bytes::lemma_split_append_sep(kb, 9);
    assert(kb.push(9u8) =~= kb + seq![9u8]);
    assert(split_spec(kb + seq![9u8], 9) =~= seq![kb, Seq::<u8>::empty()]);
    crate::bytes::lemma_split_append_no_sep(kb + seq![9u8], hx, 9);
    assert(split_spec((kb + seq![9u8]) + hx, 9) =~= seq![kb, hx]);
    crate::bytes::lemma_split_append_sep((kb + seq![9u8]) + hx, 9);
    assert(((kb + seq![9u8]) + hx).push(9u8) =~= ((kb + seq![9u8]) + hx) + seq![9u8]);
    assert(split_spec(((kb + seq![9u8]) + hx) + seq![9u8], 9) =~= seq![
        kb,
        hx,
        Seq::<u8>::empty(),
    ]);
    crate::bytes::lemma_split_append_no_sep((((kb + seq![9u8]) + hx) + seq![9u8]), c.component, 9);
    assert((((kb + seq![9u8]) + hx) + seq![9u8]) + c.component =~= body);
    assert(split_spec(body, 9) =~= seq![kb, hx, c.component]);
}

proof fn lemma_parse_obj_line_inverts(c: FileObjectV)
    requires
        wf_child(c),
    ensures
        parse_obj_line_spec(obj_line_body(c)) == Ok::<FileObjectV, crate::GyatError>(c),
{
    let body = obj_line_body(c);
    let kb = kind_bytes(c.ftype);
    let hx = hex_encode(c.hash);
    crate::hash::lemma_hex_round_trip(c.hash);
    lemma_obj_line_fields(c);
    let parts = split_spec(trim_spec(body), 9);
    assert(parts =~= seq![kb, hx, c.component]);
    assert(kb[0] != 32 && kb[kb.len() - 1] != 32);
    crate::bytes::lemma_trim_noop(kb);
    assert(trim_spec(parts[0]) == kb);
    assert(kind_bytes(FType::Blob)[0] == 98 && kind_bytes(FType::Tree)[0] == 116);
    assert(hex_decode(hx).take(20) =~= c.hash);
    match c.ftype {
        FType::Blob => {
            assert(kb == kind_bytes(FType::Blob));
        },
        FType::Tree => {
            assert(kb != kind_bytes(FType::Blob)) by {
                if kb == kind_bytes(FType::Blob) {
                    assert(kb[0] == 98);
                }
            }
        },
    }
    match parse_obj_line_spec(body) {
        Ok(pc) => {
            assert(pc.ftype == c.ftype);
            assert(pc.hash == c.hash);
            assert(pc.component == c.component);
            assert(pc =~~= c);
        },
        Err(_) => {
            assert(false);
        },
    }
}

proof fn lemma_encode_lines(cs: Seq<FileObjectV>)
    requires
        forall|k: int| 0 <= k < cs.len() ==> wf_child(#[trigger] cs[k]),
    ensures
        split_spec(encode_tree_spec(cs), 10) == cs.map_values(|c: FileObjectV| obj_line_body(c))
            + seq![Seq::<u8>::empty()],
    decreases cs.len(),
{
    let m = cs.map_values(|c: FileObjectV| obj_line_body(c));
    if cs.len() == 0 {
        assert(split_spec(encode_tree_spec(cs), 10) =~= m + seq![Seq::<u8>::empty()]);
    } else {
        assert(forall|k: int| 0 <= k < cs.drop_last().len() ==> cs.drop_last()[k] == cs[k]);
        lemma_encode_lines(cs.drop_last());
        let last = cs.last();
        let body = obj_line_body(last);
        let prevenc = encode_tree_spec(cs.drop_last());
        let prev = split_spec(prevenc, 10);
        let pm = cs.drop_last().map_values(|c: FileObjectV| obj_line_body(c));
        crate::hash::lemma_hex_round_trip(last.hash);
        assert(forall|i: int|
            0 <= i < hex_encode(last.hash).len() ==> crate::hash::is_hex_char(
                #[trigger] hex_encode(last.hash)[i],
            ));
        assert(forall|i: int| 0 <= i < body.len() ==> #[trigger] body[i] != 10);
        crate::bytes::lemma_split_append_no_sep(prevenc, body, 10);
        assert(prev.last() == Seq::<u8>::empty());
        assert(prev.last() + body =~= body);
        crate::bytes::lemma_split_append_sep(prevenc + body, 10);
        assert((prevenc + body).push(10u8) =~= encode_tree_spec(cs)) by {
            assert(encode_obj_line(last) =~= body + seq![10u8]);
            assert(prevenc + (body + seq![10u8]) =~= (prevenc + body).push(10u8));
        }
        assert(prev.update(prev.len() - 1, body) =~= pm + seq![body]);
        assert(split_spec(encode_tree_spec(cs), 10) =~= (pm + seq![body]) + seq![
            Seq::<u8>::empty(),
        ]);
        assert((pm + seq![body]) + seq![Seq::<u8>::empty()] =~= m + seq![Seq::<u8>::empty()]);
    }
}

proof fn lemma_parse_lines_snoc(ls: Seq<Seq<u8>>, l: Seq<u8>)
    ensures
        parse_tree_lines_spec(ls.push(l)) == (match parse_tree_lines_spec(ls) {
            Ok(r) => match parse_obj_line_spec(l) {
                Ok(c) => Ok::<Seq<FileObjectV>, crate::GyatError>(r.push(c)),
                Err(e) => Err(e),
            },
            Err(e) => Err::<Seq<FileObjectV>, crate::GyatError>(e),
        }),
    decreases ls.len(),
{
    let t = ls.push(l);
    if ls.len() == 0 {
        assert(t[0] == l);
        assert(t.skip(1) =~= Seq::<Seq<u8>>::empty());
        assert(parse_tree_lines_spec(t.skip(1)) == Ok::<Seq<FileObjectV>, crate::GyatError>(
            Seq::empty(),
        ));
        assert(parse_tree_lines_spec(ls) == Ok::<Seq<FileObjectV>, crate::GyatError>(
            Seq::empty(),
        ));
        match parse_obj_line_spec(l) {
            Ok(c) => {
                assert(seq![c] + Seq::<FileObjectV>::empty() =~= Seq::<
                    FileObjectV,
                >::empty().push(c));
                assert(parse_tree_lines_spec(t) == Ok::<Seq<FileObjectV>, crate::GyatError>(
                    Seq::<FileObjectV>::empty().push(c),
                ));
            },
            Err(e) => {
                assert(parse_tree_lines_spec(t) == Err::<Seq<FileObjectV>, crate::GyatError>(e));
            },
        }
    } else {
        assert(t[0] == ls[0]);
        assert(t.skip(1) =~= ls.skip(1).push(l));
        lemma_parse_lines_snoc(ls.skip(1), l);
        assert(parse_tree_lines_spec(t.skip(1)) == parse_tree_lines_spec(ls.skip(1).push(l)));
        match parse_obj_line_spec(ls[0]) {
            Ok(c) => {
                match parse_tree_lines_spec(ls.skip(1)) {
                    Ok(r) => {
                        assert(parse_tree_lines_spec(ls) == Ok::<
                            Seq<FileObjectV>,
                            crate::GyatError,
                        >(seq![c] + r));
                        match parse_obj_line_spec(l) {
                            Ok(c2) => {
                                assert(parse_tree_lines_spec(t.skip(1)) == Ok::<
                                    Seq<FileObjectV>,
                                    crate::GyatError,
                                >(r.push(c2)));
                                assert(seq![c] + r.push(c2) =~= (seq![c] + r).push(c2));
                                assert(parse_tree_lines_spec(t) == Ok::<
                                    Seq<FileObjectV>,
                                    crate::GyatError,
                                >((seq![c] + r).push(c2)));
                            },
                            Err(e) => {
                                assert(parse_tree_lines_spec(t) == Err::<
                                    Seq<FileObjectV>,
                                    crate::GyatError,
                                >(e));
                            },
                        }
                    },
                    Err(e) => {
                        assert(parse_tree_lines_spec(t) == Err::<
                            Seq<FileObjectV>,
                            crate::GyatError,
                        >(e));
                    },
                }
            },
            Err(e) => {
                assert(parse_tree_lines_spec(t) == Err::<Seq<FileObjectV>, crate::GyatError>(e));
            },
        }
    }
}

/// Law (tree codec round trip): a tree object encoded from well-formed
/// children parses back to exactly those children.  Together with
/// content addressing this is why identical children sets stored from
/// different states deduplicate to one object.
pub proof fn lemma_tree_codec_round_trip(cs: Seq<FileObjectV>)
    requires
        forall|k: int| 0 <= k < cs.len() ==> wf_child(#[trigger] cs[k]),
    ensures
        parse_tree_spec(encode_tree_spec(cs)) == Ok::<Seq<FileObjectV>, crate::GyatError>(cs),
    decreases cs.len(),
{
    lemma_encode_lines(cs);
    let m = cs.map_values(|c: FileObjectV| obj_line_body(c));
    let pieces = split_spec(encode_tree_spec(cs), 10);
    assert(pieces.last() == Seq::<u8>::empty());
    assert(tree_content_lines(encode_tree_spec(cs)) =~= m);
    assert(parse_tree_lines_spec(m) == Ok::<Seq<FileObjectV>, crate::GyatError>(cs)) by {
        lemma_parse_tree_lines_of_bodies(cs);
    }
}

proof fn lemma_parse_tree_lines_of_bodies(cs: Seq<FileObjectV>)
    requires
        forall|k: int| 0 <= k < cs.len() ==> wf_child(#[trigger] cs[k]),
    ensures
        parse_tree_lines_spec(cs.map_values(|c: FileObjectV| obj_line_body(c))) == Ok::<
            Seq<FileObjectV>,
            crate::GyatError,
        >(cs),
    decreases cs.len(),
{
    let m = cs.map_values(|c: FileObjectV| obj_line_body(c));
    if cs.len() == 0 {
        assert(m.len() == 0);
        assert(Seq::<FileObjectV>::empty() =~= cs);
    } else {
        assert(forall|k: int| 0 <= k < cs.drop_last().len() ==> cs.drop_last()[k] == cs[k]);
        lemma_parse_tree_lines_of_bodies(cs.drop_last());
        let pm = cs.drop_last().map_values(|c: FileObjectV| obj_line_body(c));
        assert(m =~= pm.push(obj_line_body(cs.last())));
        lemma_parse_lines_snoc(pm, obj_line_body(cs.last()));
        lemma_parse_obj_line_inverts(cs.last());
        assert(cs.drop_last().push(cs.last()) =~= cs);
    }
}

} // verus!
