//! The commands of the tool, over an explicit repository handle.
use vstd::prelude::*;
use vstd::string::StringExecFns;
use vstd::slice::slice_to_vec;
use vstd::utf8::encode_utf8;
use crate::compression::{inflate_of, zlib_of};
use crate::error::VcsError;
use crate::hashing::sha1_hex;
use crate::ignore::{ignored, is_ignored};
use crate::history::tree_records;
use crate::store::{object_bytes, object_text};
use crate::index::{index_text, parse_index, staged, FileMeta, InfoView, StageAction};
use crate::objects::tree_id;
use crate::repo::{blob_info, Repo};
use crate::text::{strip_prefix, trim, trim_str, views};

verus! {

broadcast use vstd::string::group_string_axioms;

/// A file to add: its path, content and metadata.
#[derive(Debug, Clone)]
pub struct NewFile {
    pub path: String,
    pub content: Vec<u8>,
    pub meta: FileMeta,
}

/// What the path given to an add names.
#[derive(Debug, Clone)]
pub enum AddTarget {
    /// Nothing exists there.
    Missing,
    /// A file.
    File(NewFile),
    /// A directory, with every file below it.
    Directory(Vec<NewFile>),
}

/// The index after staging, in order, those of the first `n` files that
/// `patterns` do not ignore.
pub open spec fn stage_files(
    idx: Seq<InfoView>,
    fs: Seq<NewFile>,
    patterns: Seq<Seq<char>>,
    n: nat,
) -> Seq<InfoView>
    decreases n,
{
    if n == 0 || n > fs.len() {
        idx
    } else if ignored(patterns, fs[n - 1].path@) {
        stage_files(idx, fs, patterns, (n - 1) as nat)
    } else {
        staged(
            stage_files(idx, fs, patterns, (n - 1) as nat),
            blob_info(fs[n - 1].path@, sha1_hex(fs[n - 1].content@), fs[n - 1].meta),
        )
    }
}

/// The store after storing, in order, the blobs of those of the first `n`
/// files that `patterns` do not ignore.
pub open spec fn store_files(
    store: Map<Seq<char>, Seq<u8>>,
    fs: Seq<NewFile>,
    patterns: Seq<Seq<char>>,
    n: nat,
) -> Map<Seq<char>, Seq<u8>>
    decreases n,
{
    if n == 0 || n > fs.len() {
        store
    } else if ignored(patterns, fs[n - 1].path@) {
        store_files(store, fs, patterns, (n - 1) as nat)
    } else {
        store_files(store, fs, patterns, (n - 1) as nat).insert(
            sha1_hex(fs[n - 1].content@),
            zlib_of(fs[n - 1].content@),
        )
    }
}

/// Adds `name`: a file is stored and staged; each file below a directory
/// that `patterns` do not ignore is stored and staged in turn; a path that
/// names nothing is refused.
pub fn add_protocol(repo: &mut Repo, name: &str, target: &AddTarget, patterns: &Vec<String>) -> (r:
    Result<Vec<StageAction>, VcsError>)
    ensures
        final(repo).head == old(repo).head,
        final(repo).branches == old(repo).branches,
        target is Missing ==> (r matches Err(e) && e is InvalidArgument) && *final(repo) == *old(
            repo,
        ),
        !(target is Missing) ==> r is Ok,
        target matches AddTarget::File(f) ==> (r is Ok ==> {
            &&& final(repo).index@ == staged(
                old(repo).index@,
                blob_info(f.path@, sha1_hex(f.content@), f.meta),
            )
            &&& final(repo).store@ == old(repo).store@.insert(
                sha1_hex(f.content@),
                zlib_of(f.content@),
            )
            &&& object_bytes(final(repo).store@, sha1_hex(f.content@)) == Some(f.content@)
        }),
        target matches AddTarget::Directory(fs) ==> (r is Ok ==> {
            &&& final(repo).index@ == stage_files(
                old(repo).index@,
                fs@,
                views(patterns@),
                fs@.len(),
            )
            &&& final(repo).store@ == store_files(
                old(repo).store@,
                fs@,
                views(patterns@),
                fs@.len(),
            )
            &&& forall|i: int|
                0 <= i < fs@.len() && !ignored(views(patterns@), fs@[i].path@) ==> inflate_of(
                    #[trigger] zlib_of(fs@[i].content@),
                ) == Some(fs@[i].content@)
        }),
{
    match target {
        AddTarget::Missing => Err(VcsError::InvalidArgument(name.to_string())),
        AddTarget::File(f) => {
            let a = repo.add_file(f.path.as_str(), slice_to_vec(f.content.as_slice()), &f.meta);
            Ok(vec![a])
        },
        AddTarget::Directory(fs) => {
            let mut done: Vec<StageAction> = Vec::new();
            let mut i: usize = 0;
            while i < fs.len()
                invariant
                    i <= fs.len(),
                    target is Directory,
                    repo.head == old(repo).head,
                    repo.branches == old(repo).branches,
                    repo.index@ == stage_files(old(repo).index@, fs@, views(patterns@), i as nat),
                    repo.store@ == store_files(old(repo).store@, fs@, views(patterns@), i as nat),
                    forall|k: int|
                        0 <= k < i && !ignored(views(patterns@), fs@[k].path@) ==> inflate_of(
                            #[trigger] zlib_of(fs@[k].content@),
                        ) == Some(fs@[k].content@),
                decreases fs.len() - i,
            {
                let f = &fs[i];
                if !is_ignored(patterns, f.path.as_str()) {
                    let a = repo.add_file(f.path.as_str(), slice_to_vec(f.content.as_slice()), &f.meta);
                    done.push(a);
                }
                i += 1;
            }
            Ok(done)
        },
    }
}

/// Records the index as a tree object and returns its identity.
pub fn write_tree_command(repo: &mut Repo) -> (t: String)
    ensures
        t@ == tree_id(index_text(old(repo).index@)),
        final(repo).store@ == old(repo).store@.insert(
            t@,
            zlib_of(encode_utf8(index_text(old(repo).index@))),
        ),
        object_text(final(repo).store@, t@) == Some(index_text(old(repo).index@)),
        tree_records(final(repo).store@, t@) == parse_index(index_text(old(repo).index@)),
        final(repo).index == old(repo).index,
        final(repo).head == old(repo).head,
        final(repo).branches == old(repo).branches,
{
    repo.write_tree_command()
}

/// The prefix of a branch ref path.
pub open spec fn heads_prefix() -> Seq<char> {
    seq!['r', 'e', 'f', 's', '/', 'h', 'e', 'a', 'd', 's', '/']
}

/// The branch that a HEAD file names: its trimmed text after `refs/heads/`.
pub fn parse_head(text: &str) -> (r: Result<String, VcsError>)
    ensures
        ({
            let t = trim(text@);
            &&& r is Ok <==> (heads_prefix().len() <= t.len() && t.take(
                heads_prefix().len() as int,
            ) == heads_prefix())
            &&& r matches Ok(b) ==> b@ == t.skip(heads_prefix().len() as int)
            &&& r matches Err(e) ==> e is Malformed
        }),
{
    let t = trim_str(text);
    proof {
        reveal_strlit("refs/heads/");
        assert("refs/heads/"@ == heads_prefix());
    }
    match strip_prefix(t.as_str(), "refs/heads/") {
        Some(b) => Ok(b),
        None => Err(VcsError::Malformed(text.to_string())),
    }
}

/// The text of a HEAD file that names branch `branch`.
pub fn head_ref(branch: &str) -> (r: String)
    ensures
        r@ == heads_prefix() + branch@,
{
    let mut r = "refs/heads/".to_string();
    proof {
        reveal_strlit("refs/heads/");
        assert("refs/heads/"@ == heads_prefix());
    }
    r.append(branch);
    r
}

/// The commit that a branch ref file names: its trimmed text, empty where
/// the branch has no commit yet.
pub fn parse_ref(text: &str) -> (r: String)
    ensures
        r@ == trim(text@),
{
    trim_str(text)
}

} // verus!
