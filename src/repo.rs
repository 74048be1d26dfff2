//! A repository: its object store, index, branch refs and HEAD, and the
//! operations that stage, commit, check out and merge.
use vstd::prelude::*;
use vstd::utf8::encode_utf8;
use crate::compression::zlib_of;
use crate::error::VcsError;
use crate::hashing::{calculate_hash, is_hex_digit, is_object_id, sha1_hex};
use crate::history::{
    commit_fields, commit_records, diff_between_commits, get_commit_parent, get_tree_from_commit,
    index_of_commit, tree_records,
};
use crate::diff::{file_diff_views, tree_diff, FileDiff};
use crate::index::{
    files_of, index_text, info_views, parse_index, is_last_of_path, lemma_files_last, lemma_files_present, lemma_restage_is_noop, stage_action, staged, unique_paths, without_paths, FileMeta,
    Index, InfoView, ObjectInfo, StageAction,
};
use crate::objects::{commit_text, lemma_commit_round_trip, parse_commit, tree_id, Blob, Commit, Tree};
use crate::history::{lemma_parent_reaches, reaches};
use crate::text::is_line_safe;
use crate::store::{lemma_put_twice, object_bytes, object_text, ObjectStore};
use crate::text::{str_eq, views};

verus! {

broadcast use vstd::string::group_string_axioms;

/// A branch and the commit it points at; an empty commit means none yet.
#[derive(Debug, Clone)]
pub struct Branch {
    pub name: String,
    pub commit: String,
}

/// The map from branch name to commit that branch records describe; the
/// later of two records with one name counts.
pub open spec fn refs_of(s: Seq<Branch>) -> Map<Seq<char>, Seq<char>>
    decreases s.len(),
{
    if s.len() == 0 {
        Map::empty()
    } else {
        refs_of(s.drop_last()).insert(s.last().name@, s.last().commit@)
    }
}

/// A repository held in memory.
#[derive(Debug, Clone)]
pub struct Repo {
    pub store: ObjectStore,
    pub index: Index,
    /// The name of the branch that HEAD points at.
    pub head: String,
    pub branches: Vec<Branch>,
}

/// The commit a branch points at: empty where the branch is unknown or has
/// no commit yet.
pub open spec fn tip_of(refs: Map<Seq<char>, Seq<char>>, name: Seq<char>) -> Seq<char> {
    if refs.contains_key(name) {
        refs[name]
    } else {
        Seq::empty()
    }
}

/// The parents of a new commit on a branch whose tip is `tip`.
pub open spec fn parents_for(tip: Seq<char>) -> Seq<Seq<char>> {
    if tip.len() == 0 {
        Seq::empty()
    } else {
        seq![tip]
    }
}

pub open spec fn blob_kind() -> Seq<char> {
    seq!['b', 'l', 'o', 'b']
}

/// The index record of a staged file.
pub open spec fn blob_info(path: Seq<char>, hash: Seq<char>, meta: FileMeta) -> InfoView {
    InfoView {
        obj_type: blob_kind(),
        hash,
        ctime: meta.ctime,
        mtime: meta.mtime,
        path,
        size: meta.size,
        permissions: meta.permissions,
    }
}

/// The identity of a commit with these fields.
pub open spec fn commit_id(tree: Seq<char>, parents: Seq<Seq<char>>, message: Seq<char>) -> Seq<
    char,
> {
    sha1_hex(encode_utf8(commit_text(tree, parents, message)))
}

/// The stored payload of a commit with these fields.
pub open spec fn commit_payload(tree: Seq<char>, parents: Seq<Seq<char>>, message: Seq<char>) -> Seq<
    u8,
> {
    zlib_of(encode_utf8(commit_text(tree, parents, message)))
}

proof fn lemma_refs_update_last(s: Seq<Branch>, i: int, b: Branch)
    requires
        0 <= i < s.len(),
        s[i].name@ == b.name@,
        forall|j: int| i < j < s.len() ==> s[j].name@ != b.name@,
    ensures
        refs_of(s.update(i, b)) == refs_of(s).insert(b.name@, b.commit@),
    decreases s.len(),
{
    let t = s.update(i, b);
    if i == s.len() - 1 {
        assert(t.drop_last() == s.drop_last());
        assert(refs_of(s).insert(b.name@, b.commit@) =~= refs_of(s.drop_last()).insert(
            b.name@,
            b.commit@,
        ));
    } else {
        lemma_refs_update_last(s.drop_last(), i, b);
        assert(t.drop_last() == s.drop_last().update(i, b));
        assert(refs_of(t) =~= refs_of(s).insert(b.name@, b.commit@));
    }
}

proof fn lemma_refs_last(s: Seq<Branch>, i: int)
    requires
        0 <= i < s.len(),
        forall|j: int| i < j < s.len() ==> s[j].name@ != s[i].name@,
    ensures
        refs_of(s).contains_key(s[i].name@),
        refs_of(s)[s[i].name@] == s[i].commit@,
    decreases s.len(),
{
    if i < s.len() - 1 {
        lemma_refs_last(s.drop_last(), i);
    }
}

proof fn lemma_refs_absent(s: Seq<Branch>, n: Seq<char>)
    requires
        forall|j: int| 0 <= j < s.len() ==> s[j].name@ != n,
    ensures
        !refs_of(s).contains_key(n),
    decreases s.len(),
{
    if s.len() > 0 {
        lemma_refs_absent(s.drop_last(), n);
    }
}

impl Repo {
    /// A fresh repository: no objects, an empty index, and HEAD on a
    /// branch `main` without commits.
    pub fn new() -> (r: Repo)
        ensures
            r.store@ == Map::<Seq<char>, Seq<u8>>::empty(),
            r.index@ == Seq::<InfoView>::empty(),
            r.head@ == seq!['m', 'a', 'i', 'n'],
            refs_of(r.branches@) == Map::<Seq<char>, Seq<char>>::empty().insert(
                seq!['m', 'a', 'i', 'n'],
                Seq::empty(),
            ),
    {
        let mut branches: Vec<Branch> = Vec::new();
        branches.push(Branch { name: "main".to_string(), commit: String::new() });
        proof {
            reveal_strlit("main");
            assert("main"@ == seq!['m', 'a', 'i', 'n']);
            assert(branches@.drop_last() == Seq::<Branch>::empty());
            assert(branches@.last().name@ == seq!['m', 'a', 'i', 'n']);
            assert(branches@.last().commit@ == Seq::<char>::empty());
            assert(refs_of(branches@) == refs_of(branches@.drop_last()).insert(
                branches@.last().name@,
                branches@.last().commit@,
            ));
        }
        Repo {
            store: ObjectStore::new(),
            index: Index::new(),
            head: "main".to_string(),
            branches,
        }
    }

    /// Where the last record of branch `name` stands, if any.
    fn branch_position(&self, name: &str) -> (r: Option<usize>)
        ensures
            r matches Some(i) ==> i < self.branches.len() && self.branches@[i as int].name@
                == name@ && forall|j: int|
                i < j < self.branches.len() ==> self.branches@[j].name@ != name@,
            r is None ==> forall|j: int|
                0 <= j < self.branches.len() ==> self.branches@[j].name@ != name@,
    {
        let mut i: usize = self.branches.len();
        while i > 0
            invariant
                i <= self.branches.len(),
                forall|j: int| i <= j < self.branches.len() ==> self.branches@[j].name@ != name@,
            decreases i,
        {
            if str_eq(self.branches[i - 1].name.as_str(), name) {
                return Some(i - 1);
            }
            i -= 1;
        }
        None
    }

    /// Whether branch `name` exists.
    pub fn has_branch(&self, name: &str) -> (r: bool)
        ensures
            r == refs_of(self.branches@).contains_key(name@),
    {
        match self.branch_position(name) {
            Some(i) => {
                proof {
                    lemma_refs_last(self.branches@, i as int);
                }
                true
            },
            None => {
                proof {
                    lemma_refs_absent(self.branches@, name@);
                }
                false
            },
        }
    }

    /// The commit that branch `name` points at; empty where there is none.
    pub fn get_commit_from_branch(&self, name: &str) -> (r: String)
        ensures
            r@ == tip_of(refs_of(self.branches@), name@),
    {
        match self.branch_position(name) {
            Some(i) => {
                proof {
                    lemma_refs_last(self.branches@, i as int);
                }
                self.branches[i].commit.clone()
            },
            None => {
                proof {
                    lemma_refs_absent(self.branches@, name@);
                }
                String::new()
            },
        }
    }

    /// Points branch `name` at `commit`, creating the branch if needed.
    pub fn set_branch(&mut self, name: &str, commit: &str)
        ensures
            refs_of(final(self).branches@) == refs_of(old(self).branches@).insert(name@, commit@),
            final(self).store == old(self).store,
            final(self).index == old(self).index,
            final(self).head == old(self).head,
    {
        let b = Branch { name: name.to_string(), commit: commit.to_string() };
        match self.branch_position(name) {
            Some(i) => {
                proof {
                    lemma_refs_update_last(self.branches@, i as int, b);
                }
                self.branches.set(i, b);
            },
            None => {
                self.branches.push(b);
                assert(self.branches@.drop_last() == old(self).branches@);
            },
        }
    }

    /// Creates branch `name` at the commit HEAD points at.
    pub fn branch_command(&mut self, name: &str)
        ensures
            refs_of(final(self).branches@) == refs_of(old(self).branches@).insert(
                name@,
                tip_of(refs_of(old(self).branches@), old(self).head@),
            ),
            final(self).store == old(self).store,
            final(self).index == old(self).index,
            final(self).head == old(self).head,
    {
        let tip = self.get_commit_from_branch(self.head.as_str());
        self.set_branch(name, tip.as_str());
    }

    /// Stores `content` as a blob and stages it at `path` with `meta`.
    pub fn add_file(&mut self, path: &str, content: Vec<u8>, meta: &FileMeta) -> (a: StageAction)
        ensures
            final(self).store@ == old(self).store@.insert(sha1_hex(content@), zlib_of(content@)),
            object_bytes(final(self).store@, sha1_hex(content@)) == Some(content@),
            final(self).index@ == staged(
                old(self).index@,
                blob_info(path@, sha1_hex(content@), *meta),
            ),
            a == stage_action(old(self).index@, blob_info(path@, sha1_hex(content@), *meta)),
            final(self).head == old(self).head,
            final(self).branches == old(self).branches,
    {
        let blob = Blob::new(content);
        blob.create_blob(&mut self.store);
        proof {
            reveal_strlit("blob");
            assert("blob"@ == blob_kind());
        }
        let obj = ObjectInfo::new("blob", path, blob.id.as_str(), meta);
        self.index.stage(obj)
    }

    /// Records the index as a tree object and returns its identity.
    pub fn write_tree_command(&mut self) -> (t: String)
        ensures
            t@ == tree_id(index_text(old(self).index@)),
            final(self).store@ == old(self).store@.insert(
                t@,
                zlib_of(encode_utf8(index_text(old(self).index@))),
            ),
            object_text(final(self).store@, t@) == Some(index_text(old(self).index@)),
            tree_records(final(self).store@, t@) == parse_index(index_text(old(self).index@)),
            final(self).index == old(self).index,
            final(self).head == old(self).head,
            final(self).branches == old(self).branches,
    {
        let tree = Tree::new_tree_from_index(&self.index);
        tree.create_tree_from_index(&mut self.store, &self.index);
        tree.id
    }

    /// Creates a commit of tree `tree_hash` whose parent is the commit HEAD
    /// points at, if any, and points HEAD's branch at it.
    pub fn commit_tree_command(&mut self, tree_hash: &str, message: &str) -> (id: String)
        ensures
            ({
                let tip = tip_of(refs_of(old(self).branches@), old(self).head@);
                &&& id@ == commit_id(tree_hash@, parents_for(tip), message@)
                &&& is_object_id(id@)
                &&& final(self).store@ == old(self).store@.insert(
                    id@,
                    commit_payload(tree_hash@, parents_for(tip), message@),
                )
                &&& commit_fields(final(self).store@, id@) == parse_commit(
                    commit_text(tree_hash@, parents_for(tip), message@),
                )
                &&& refs_of(final(self).branches@) == refs_of(old(self).branches@).insert(
                    old(self).head@,
                    id@,
                )
            }),
            final(self).index == old(self).index,
            final(self).head == old(self).head,
    {
        let tip = self.get_commit_from_branch(self.head.as_str());
        let mut parents: Vec<String> = Vec::new();
        if !tip.as_str().is_empty() {
            parents.push(tip);
        }
        assert(views(parents@) =~= parents_for(tip_of(refs_of(self.branches@), self.head@)));
        let commit = Commit::new(tree_hash.to_string(), parents, message.to_string());
        commit.create_commit(&mut self.store);
        let head = self.head.clone();
        self.set_branch(head.as_str(), commit.id.as_str());
        commit.id
    }

    /// Commits the index: first drops from it the paths in `deleted_files`
    /// (tracked files gone from disk), then records its tree and a commit
    /// on HEAD's branch, unless that tree is the tree of the commit HEAD
    /// points at. Fails where the commit HEAD points at does not read.
    pub fn commit_command(&mut self, message: &str, deleted_files: &Vec<String>) -> (r: Result<
        String,
        VcsError,
    >)
        ensures
            final(self).index@ == without_paths(old(self).index@, views(deleted_files@)),
            final(self).head == old(self).head,
            ({
                let tip = tip_of(refs_of(old(self).branches@), old(self).head@);
                let fields = commit_fields(old(self).store@, tip);
                let text = index_text(final(self).index@);
                let tid = tree_id(text);
                &&& r is Ok <==> !(tip.len() > 0 && (fields is None || (fields->0).0 == tid))
                &&& (r matches Err(e) && e is NoChanges) <==> (tip.len() > 0 && fields is Some && (
                fields->0).0 == tid)
                &&& tip.len() > 0 && fields is None ==> (r matches Err(e) && (e is NotFound
                    || e is Corrupt || e is Malformed))
                &&& r is Err ==> final(self).branches == old(self).branches && final(self).store
                    == old(self).store
                &&& r matches Ok(id) ==> {
                    &&& id@ == commit_id(tid, parents_for(tip), message@)
                    &&& final(self).store@ == old(self).store@.insert(
                        tid,
                        zlib_of(encode_utf8(text)),
                    ).insert(id@, commit_payload(tid, parents_for(tip), message@))
                    &&& commit_fields(final(self).store@, id@) == parse_commit(
                        commit_text(tid, parents_for(tip), message@),
                    )
                    &&& is_object_id(tid) && is_object_id(id@)
                    &&& id@ != tid ==> object_text(final(self).store@, tid) == Some(text)
                    &&& refs_of(final(self).branches@) == refs_of(old(self).branches@).insert(
                        old(self).head@,
                        id@,
                    )
                }
            }),
    {
        self.index.clean_index(deleted_files);
        let tip = self.get_commit_from_branch(self.head.as_str());
        let text = self.index.content();
        let tree = Tree::new(text.as_str());
        if !tip.as_str().is_empty() {
            let current = get_tree_from_commit(&self.store, tip.as_str())?;
            if current == tree.id {
                return Err(VcsError::NoChanges);
            }
        }
        tree.create_tree(&mut self.store, text.as_str());
        let ghost s1 = self.store@;
        let id = self.commit_tree_command(tree.id.as_str(), message);
        proof {
            if id@ != tree.id@ {
                assert(self.store@.contains_key(tree.id@) == s1.contains_key(tree.id@));
                assert(self.store@[tree.id@] == s1[tree.id@]);
                assert(object_text(self.store@, tree.id@) == object_text(s1, tree.id@));
            }
        }
        Ok(id)
    }
}

/// Adding the same file twice, with its metadata and content unchanged,
/// leaves the store and the index as the first addition left them.
pub proof fn lemma_add_twice_is_noop(
    store: Map<Seq<char>, Seq<u8>>,
    index: Seq<InfoView>,
    path: Seq<char>,
    content: Seq<u8>,
    meta: FileMeta,
)
    requires
        unique_paths(index),
    ensures
        ({
            let s1 = store.insert(sha1_hex(content), zlib_of(content));
            let i1 = staged(index, blob_info(path, sha1_hex(content), meta));
            &&& s1.insert(sha1_hex(content), zlib_of(content)) == s1
            &&& staged(i1, blob_info(path, sha1_hex(content), meta)) == i1
            &&& stage_action(i1, blob_info(path, sha1_hex(content), meta)) == StageAction::NoChange
        }),
{
    lemma_put_twice(store, content);
    lemma_restage_is_noop(index, blob_info(path, sha1_hex(content), meta));
}

/// A file to write into the working tree.
#[derive(Debug, Clone)]
pub struct FileWrite {
    pub path: String,
    pub content: Vec<u8>,
}

/// What a checkout does to the working tree: delete the paths in `remove`,
/// then write each file of `write`.
#[derive(Debug, Clone)]
pub struct WorkTreeUpdate {
    pub remove: Vec<String>,
    pub write: Vec<FileWrite>,
}

pub open spec fn write_views(v: Seq<FileWrite>) -> Seq<(Seq<char>, Seq<u8>)> {
    Seq::new(v.len(), |i: int| (v[i].path@, v[i].content@))
}

/// The paths of the first `n` records of `cur`, each once, that the
/// target files `ft` lack.
pub open spec fn removals(cur: Seq<InfoView>, ft: Map<Seq<char>, Seq<char>>, n: nat) -> Seq<
    Seq<char>,
>
    decreases n,
{
    if n == 0 || n > cur.len() {
        Seq::empty()
    } else if is_last_of_path(cur, n - 1) && !ft.contains_key(cur[n - 1].path) {
        removals(cur, ft, (n - 1) as nat).push(cur[n - 1].path)
    } else {
        removals(cur, ft, (n - 1) as nat)
    }
}

/// The files of the first `n` records of `t`, each path once, with their
/// stored content; `None` where a blob does not read.
pub open spec fn file_writes(store: Map<Seq<char>, Seq<u8>>, t: Seq<InfoView>, n: nat) -> Option<
    Seq<(Seq<char>, Seq<u8>)>,
>
    decreases n,
{
    if n == 0 || n > t.len() {
        Some(Seq::empty())
    } else {
        match file_writes(store, t, (n - 1) as nat) {
            None => None,
            Some(ws) => if !is_last_of_path(t, n - 1) {
                Some(ws)
            } else {
                match object_bytes(store, t[n - 1].hash) {
                    Some(b) => Some(ws.push((t[n - 1].path, b))),
                    None => None,
                }
            },
        }
    }
}

/// A checkout from commit `cur` to commit `tgt`: the paths to delete, the
/// files to write, and the new index.
pub open spec fn checkout_plan(store: Map<Seq<char>, Seq<u8>>, cur: Seq<char>, tgt: Seq<char>) -> Option<
    (Seq<Seq<char>>, Seq<(Seq<char>, Seq<u8>)>, Seq<InfoView>),
> {
    match (commit_records(store, cur), commit_records(store, tgt)) {
        (Some(c), Some(t)) => match file_writes(store, t, t.len()) {
            Some(ws) => Some((removals(c, files_of(t), c.len()), ws, t)),
            None => None,
        },
        _ => None,
    }
}

/// The working tree `w` after deleting the paths `rs`.
pub open spec fn apply_removals(w: Map<Seq<char>, Seq<u8>>, rs: Seq<Seq<char>>) -> Map<
    Seq<char>,
    Seq<u8>,
>
    decreases rs.len(),
{
    if rs.len() == 0 {
        w
    } else {
        apply_removals(w, rs.drop_last()).remove(rs.last())
    }
}

/// The working tree `w` after writing the files `ws` in order.
pub open spec fn apply_writes(w: Map<Seq<char>, Seq<u8>>, ws: Seq<(Seq<char>, Seq<u8>)>) -> Map<
    Seq<char>,
    Seq<u8>,
>
    decreases ws.len(),
{
    if ws.len() == 0 {
        w
    } else {
        apply_writes(w, ws.drop_last()).insert(ws.last().0, ws.last().1)
    }
}

/// The working tree `w` after a checkout plan.
pub open spec fn apply_plan(
    w: Map<Seq<char>, Seq<u8>>,
    plan: (Seq<Seq<char>>, Seq<(Seq<char>, Seq<u8>)>, Seq<InfoView>),
) -> Map<Seq<char>, Seq<u8>> {
    apply_writes(apply_removals(w, plan.0), plan.1)
}

impl Repo {
    /// Switches to branch `branch`: the index becomes the records of its
    /// commit's tree and HEAD points at it. Returns what to do to the
    /// working tree: delete the files of the current commit's tree that the
    /// target tree lacks, and write every file of the target tree.
    pub fn checkout(&mut self, branch: &str) -> (r: Result<WorkTreeUpdate, VcsError>)
        ensures
            final(self).store == old(self).store,
            final(self).branches == old(self).branches,
            !refs_of(old(self).branches@).contains_key(branch@) ==> (r matches Err(e)
                && e is InvalidArgument),
            ({
                let refs = refs_of(old(self).branches@);
                let plan = checkout_plan(
                    old(self).store@,
                    tip_of(refs, old(self).head@),
                    tip_of(refs, branch@),
                );
                &&& refs.contains_key(branch@) ==> (r is Ok <==> plan is Some)
                &&& r matches Ok(u) ==> {
                    &&& views(u.remove@) == (plan->0).0
                    &&& write_views(u.write@) == (plan->0).1
                    &&& final(self).index@ == (plan->0).2
                    &&& final(self).head@ == branch@
                }
            }),
            r is Err ==> final(self).index == old(self).index && final(self).head == old(self).head,
    {
        if !self.has_branch(branch) {
            return Err(VcsError::InvalidArgument(branch.to_string()));
        }
        let cur_tip = self.get_commit_from_branch(self.head.as_str());
        let tgt_tip = self.get_commit_from_branch(branch);
        let cur = index_of_commit(&self.store, cur_tip.as_str())?;
        let tgt = index_of_commit(&self.store, tgt_tip.as_str())?;
        let ghost ft = files_of(tgt@);
        let mut remove: Vec<String> = Vec::new();
        let mut i: usize = 0;
        while i < cur.obj.len()
            invariant
                i <= cur@.len(),
                cur@.len() == cur.obj.len(),
                ft == files_of(tgt@),
                views(remove@) == removals(cur@, ft, i as nat),
            decreases cur.obj.len() - i,
        {
            let e = &cur.obj[i];
            assert(e@ == cur@[i as int]);
            if cur.last_of_path(i) {
                if tgt.find_last(e.path.as_str()).is_none() {
                    remove.push(e.path.clone());
                    assert(views(remove@) =~= removals(cur@, ft, (i + 1) as nat));
                }
            }
            i += 1;
        }
        let mut write: Vec<FileWrite> = Vec::new();
        let mut j: usize = 0;
        while j < tgt.obj.len()
            invariant
                j <= tgt@.len(),
                tgt@.len() == tgt.obj.len(),
                file_writes(self.store@, tgt@, j as nat) == Some(write_views(write@)),
                *self == *old(self),
                refs_of(self.branches@).contains_key(branch@),
                cur_tip@ == tip_of(refs_of(self.branches@), self.head@),
                tgt_tip@ == tip_of(refs_of(self.branches@), branch@),
                commit_records(self.store@, cur_tip@) == Some(cur@),
                commit_records(self.store@, tgt_tip@) == Some(tgt@),
            decreases tgt.obj.len() - j,
        {
            let e = &tgt.obj[j];
            assert(e@ == tgt@[j as int]);
            if tgt.last_of_path(j) {
                match self.store.get(e.hash.as_str()) {
                    Ok(b) => {
                        write.push(FileWrite { path: e.path.clone(), content: b });
                        assert(write_views(write@) =~= file_writes(self.store@, tgt@, (j + 1) as nat)->0);
                    },
                    Err(err) => {
                        proof {
                            lemma_writes_none(self.store@, tgt@, (j + 1) as nat, tgt@.len());
                        }
                        return Err(err);
                    },
                }
            }
            j += 1;
        }
        self.index = tgt;
        self.head = branch.to_string();
        Ok(WorkTreeUpdate { remove, write })
    }
}

proof fn lemma_writes_none(store: Map<Seq<char>, Seq<u8>>, t: Seq<InfoView>, n: nat, m: nat)
    requires
        0 < n <= m <= t.len(),
        file_writes(store, t, n) is None,
    ensures
        file_writes(store, t, m) is None,
    decreases m - n,
{
    if n < m {
        lemma_writes_none(store, t, n, (m - 1) as nat);
    }
}

proof fn lemma_apply_removals(w: Map<Seq<char>, Seq<u8>>, rs: Seq<Seq<char>>, p: Seq<char>)
    ensures
        apply_removals(w, rs).contains_key(p) <==> (w.contains_key(p) && !rs.contains(p)),
        apply_removals(w, rs).contains_key(p) ==> apply_removals(w, rs)[p] == w[p],
    decreases rs.len(),
{
    if rs.len() > 0 {
        lemma_apply_removals(w, rs.drop_last(), p);
        assert(rs.contains(p) <==> (rs.drop_last().contains(p) || rs.last() == p)) by {
            if rs.contains(p) {
                let k = choose|k: int| 0 <= k < rs.len() && rs[k] == p;
                if k < rs.len() - 1 {
                    assert(rs.drop_last()[k] == p);
                }
            }
            if rs.drop_last().contains(p) {
                let k = choose|k: int| 0 <= k < rs.len() - 1 && rs.drop_last()[k] == p;
                assert(rs[k] == p);
            }
        }
    }
}

proof fn lemma_removals_contain(cur: Seq<InfoView>, ft: Map<Seq<char>, Seq<char>>, n: nat, p: Seq<char>)
    requires
        n <= cur.len(),
    ensures
        removals(cur, ft, n).contains(p) <==> (!ft.contains_key(p) && exists|k: int|
            0 <= k < n && is_last_of_path(cur, k) && #[trigger] cur[k].path == p),
    decreases n,
{
    if n > 0 {
        lemma_removals_contain(cur, ft, (n - 1) as nat, p);
        let r = removals(cur, ft, (n - 1) as nat);
        if is_last_of_path(cur, n - 1) && !ft.contains_key(cur[n - 1].path) {
            assert(removals(cur, ft, n).contains(p) <==> (r.contains(p) || cur[n - 1].path == p)) by {
                let r2 = r.push(cur[n - 1].path);
                if r2.contains(p) {
                    let k = choose|k: int| 0 <= k < r2.len() && r2[k] == p;
                    if k < r.len() {
                        assert(r[k] == p);
                    }
                }
                if r.contains(p) {
                    let k = choose|k: int| 0 <= k < r.len() && r[k] == p;
                    assert(r2[k] == p);
                }
                if cur[n - 1].path == p {
                    assert(r2[r.len() as int] == p);
                }
            }
        }
        if exists|k: int| 0 <= k < n && is_last_of_path(cur, k) && #[trigger] cur[k].path == p {
            let k = choose|k: int| 0 <= k < n && is_last_of_path(cur, k) && #[trigger] cur[k].path == p;
            if k < n - 1 {
                assert(0 <= k < n - 1 && is_last_of_path(cur, k) && cur[k].path == p);
            }
        }
    }
}

/// Whether record `k` of `s` is the last one of its path, for some `k`.
pub open spec fn has_last_record(s: Seq<InfoView>, p: Seq<char>) -> bool {
    exists|k: int| 0 <= k < s.len() && is_last_of_path(s, k) && #[trigger] s[k].path == p
}

proof fn lemma_has_last_record(s: Seq<InfoView>, p: Seq<char>)
    ensures
        has_last_record(s, p) <==> files_of(s).contains_key(p),
{
    if files_of(s).contains_key(p) {
        lemma_files_present(s, p);
    }
    if has_last_record(s, p) {
        let k = choose|k: int| 0 <= k < s.len() && is_last_of_path(s, k) && #[trigger] s[k].path == p;
        lemma_files_last(s, k);
    }
}

/// The stored content of the file at `p` in the tree with records `t`.
pub open spec fn tree_file(store: Map<Seq<char>, Seq<u8>>, t: Seq<InfoView>, p: Seq<char>) -> Seq<u8> {
    object_bytes(store, files_of(t)[p])->0
}

/// Some entry of `ws` writes the path `p`.
pub open spec fn in_writes(ws: Seq<(Seq<char>, Seq<u8>)>, p: Seq<char>) -> bool {
    exists|i: int| 0 <= i < ws.len() && #[trigger] ws[i].0 == p
}

/// Among the first `n` records of `t`, one is the last record of path `p`.
pub open spec fn last_record_before(t: Seq<InfoView>, p: Seq<char>, n: nat) -> bool {
    exists|k: int| 0 <= k < n && is_last_of_path(t, k) && #[trigger] t[k].path == p
}

proof fn lemma_file_writes_facts(store: Map<Seq<char>, Seq<u8>>, t: Seq<InfoView>, n: nat)
    requires
        n <= t.len(),
        file_writes(store, t, n) is Some,
    ensures
        ({
            let ws = file_writes(store, t, n)->0;
            &&& forall|i: int| 0 <= i < ws.len() ==> #[trigger] ws[i].1 == tree_file(store, t, ws[i].0)
            &&& forall|p: Seq<char>| #[trigger] in_writes(ws, p) <==> last_record_before(t, p, n)
        }),
    decreases n,
{
    if n > 0 {
        lemma_file_writes_facts(store, t, (n - 1) as nat);
        let ws0 = file_writes(store, t, (n - 1) as nat)->0;
        let ws = file_writes(store, t, n)->0;
        if is_last_of_path(t, n - 1) {
            lemma_files_last(t, n - 1);
            assert forall|p: Seq<char>| #[trigger] in_writes(ws, p) <==> last_record_before(t, p, n) by {
                if in_writes(ws, p) {
                    let i = choose|i: int| 0 <= i < ws.len() && #[trigger] ws[i].0 == p;
                    if i < ws0.len() {
                        assert(ws0[i].0 == p);
                        assert(in_writes(ws0, p));
                    } else {
                        assert(0 <= n - 1 < n && is_last_of_path(t, n - 1) && t[n - 1].path == p);
                    }
                }
                if last_record_before(t, p, n) {
                    let k = choose|k: int|
                        0 <= k < n && is_last_of_path(t, k) && #[trigger] t[k].path == p;
                    if k < n - 1 {
                        assert(0 <= k < n - 1 && is_last_of_path(t, k) && t[k].path == p);
                        assert(last_record_before(t, p, (n - 1) as nat));
                        assert(in_writes(ws0, p));
                        let i = choose|i: int| 0 <= i < ws0.len() && #[trigger] ws0[i].0 == p;
                        assert(ws[i].0 == p);
                    } else {
                        assert(ws[ws.len() - 1].0 == p);
                    }
                }
            }
        } else {
            assert forall|p: Seq<char>| #[trigger] in_writes(ws, p) <==> last_record_before(t, p, n) by {
                assert(in_writes(ws0, p) <==> last_record_before(t, p, (n - 1) as nat));
                if last_record_before(t, p, n) {
                    let k = choose|k: int|
                        0 <= k < n && is_last_of_path(t, k) && #[trigger] t[k].path == p;
                    assert(k != n - 1);
                    assert(last_record_before(t, p, (n - 1) as nat));
                }
                if last_record_before(t, p, (n - 1) as nat) {
                    let k = choose|k: int|
                        0 <= k < n - 1 && is_last_of_path(t, k) && #[trigger] t[k].path == p;
                    assert(0 <= k < n && is_last_of_path(t, k) && t[k].path == p);
                }
            }
        }
    }
}

proof fn lemma_apply_writes(
    store: Map<Seq<char>, Seq<u8>>,
    t: Seq<InfoView>,
    w: Map<Seq<char>, Seq<u8>>,
    ws: Seq<(Seq<char>, Seq<u8>)>,
    p: Seq<char>,
)
    requires
        forall|i: int| 0 <= i < ws.len() ==> #[trigger] ws[i].1 == tree_file(store, t, ws[i].0),
    ensures
        in_writes(ws, p) ==> apply_writes(
            w,
            ws,
        ).contains_key(p) && apply_writes(w, ws)[p] == tree_file(store, t, p),
        !in_writes(ws, p) ==> (apply_writes(
            w,
            ws,
        ).contains_key(p) == w.contains_key(p) && (w.contains_key(p) ==> apply_writes(w, ws)[p]
            == w[p])),
    decreases ws.len(),
{
    if ws.len() > 0 {
        let w0 = ws.drop_last();
        assert forall|i: int| 0 <= i < w0.len() implies #[trigger] w0[i].1 == tree_file(
            store,
            t,
            w0[i].0,
        ) by {
            assert(w0[i] == ws[i]);
        }
        lemma_apply_writes(store, t, w, w0, p);
        if in_writes(w0, p) {
            let i = choose|i: int| 0 <= i < w0.len() && #[trigger] w0[i].0 == p;
            assert(ws[i].0 == p);
        }
        if in_writes(ws, p) {
            let i = choose|i: int| 0 <= i < ws.len() && #[trigger] ws[i].0 == p;
            if i < ws.len() - 1 {
                assert(w0[i].0 == p);
            }
        }
    }
}

/// The effect of a checkout to the tree with records `t`, from the tree
/// with records `c`: every file of `t` holds its stored content; a path of
/// `c` that `t` lacks is gone; every other path is as it was.
proof fn lemma_apply_plan(
    store: Map<Seq<char>, Seq<u8>>,
    w: Map<Seq<char>, Seq<u8>>,
    c: Seq<InfoView>,
    t: Seq<InfoView>,
    p: Seq<char>,
)
    requires
        file_writes(store, t, t.len()) is Some,
    ensures
        ({
            let w2 = apply_plan(
                w,
                (removals(c, files_of(t), c.len()), file_writes(store, t, t.len())->0, t),
            );
            &&& files_of(t).contains_key(p) ==> w2.contains_key(p) && w2[p] == tree_file(
                store,
                t,
                p,
            )
            &&& !files_of(t).contains_key(p) && files_of(c).contains_key(p) ==> !w2.contains_key(p)
            &&& !files_of(t).contains_key(p) && !files_of(c).contains_key(p) ==> (w2.contains_key(p)
                == w.contains_key(p) && (w.contains_key(p) ==> w2[p] == w[p]))
        }),
{
    let rs = removals(c, files_of(t), c.len());
    let ws = file_writes(store, t, t.len())->0;
    lemma_file_writes_facts(store, t, t.len());
    lemma_removals_contain(c, files_of(t), c.len(), p);
    lemma_has_last_record(c, p);
    lemma_has_last_record(t, p);
    assert(has_last_record(c, p) == last_record_before(c, p, c.len()));
    assert(has_last_record(t, p) == last_record_before(t, p, t.len()));
    assert(in_writes(ws, p) == last_record_before(t, p, t.len()));
    lemma_apply_removals(w, rs, p);
    lemma_apply_writes(store, t, apply_removals(w, rs), ws, p);
}

/// Checking out `a`, then `b`, then `a` again leaves every file of `a`'s
/// tree with its stored content, no file of `b`'s tree that `a`'s lacks,
/// every other path as the first checkout left it, and the same index.
pub proof fn lemma_checkout_round_trip(
    store: Map<Seq<char>, Seq<u8>>,
    refs: Map<Seq<char>, Seq<char>>,
    head: Seq<char>,
    a: Seq<char>,
    b: Seq<char>,
    w0: Map<Seq<char>, Seq<u8>>,
)
    requires
        checkout_plan(store, tip_of(refs, head), tip_of(refs, a)) is Some,
        checkout_plan(store, tip_of(refs, a), tip_of(refs, b)) is Some,
        checkout_plan(store, tip_of(refs, b), tip_of(refs, a)) is Some,
    ensures
        ({
            let first = checkout_plan(store, tip_of(refs, head), tip_of(refs, a))->0;
            let second = checkout_plan(store, tip_of(refs, a), tip_of(refs, b))->0;
            let third = checkout_plan(store, tip_of(refs, b), tip_of(refs, a))->0;
            let w1 = apply_plan(w0, first);
            let w3 = apply_plan(apply_plan(w1, second), third);
            let fa = files_of(first.2);
            let fb = files_of(second.2);
            &&& third.2 == first.2
            &&& forall|p: Seq<char>|
                #[trigger] fa.contains_key(p) ==> w3.contains_key(p) && w3[p] == tree_file(
                    store,
                    first.2,
                    p,
                ) && w1.contains_key(p) && w1[p] == w3[p]
            &&& forall|p: Seq<char>|
                #[trigger] fb.contains_key(p) && !fa.contains_key(p) ==> !w3.contains_key(p)
            &&& forall|p: Seq<char>|
                !fa.contains_key(p) && !fb.contains_key(p) ==> (#[trigger] w3.contains_key(p)
                    == w1.contains_key(p) && (w1.contains_key(p) ==> w3[p] == w1[p]))
        }),
{
    let ra = commit_records(store, tip_of(refs, a))->0;
    let rb = commit_records(store, tip_of(refs, b))->0;
    let rh = commit_records(store, tip_of(refs, head))->0;
    let first = checkout_plan(store, tip_of(refs, head), tip_of(refs, a))->0;
    let second = checkout_plan(store, tip_of(refs, a), tip_of(refs, b))->0;
    let third = checkout_plan(store, tip_of(refs, b), tip_of(refs, a))->0;
    let w1 = apply_plan(w0, first);
    let w2 = apply_plan(w1, second);
    let w3 = apply_plan(w2, third);
    assert forall|p: Seq<char>| #[trigger] files_of(ra).contains_key(p) implies w3.contains_key(p)
        && w3[p] == tree_file(store, ra, p) && w1.contains_key(p) && w1[p] == w3[p] by {
        lemma_apply_plan(store, w0, rh, ra, p);
        lemma_apply_plan(store, w1, ra, rb, p);
        lemma_apply_plan(store, w2, rb, ra, p);
    }
    assert forall|p: Seq<char>| #[trigger] files_of(rb).contains_key(p) && !files_of(ra).contains_key(p)
        implies !w3.contains_key(p) by {
        lemma_apply_plan(store, w2, rb, ra, p);
    }
    assert forall|p: Seq<char>| !files_of(ra).contains_key(p) && !files_of(rb).contains_key(p)
        implies (#[trigger] w3.contains_key(p) == w1.contains_key(p) && (w1.contains_key(p) ==> w3[p]
        == w1[p])) by {
        lemma_apply_plan(store, w1, ra, rb, p);
        lemma_apply_plan(store, w2, rb, ra, p);
    }
}

/// A file found in the working tree, with the digest of its content.
#[derive(Debug, Clone)]
pub struct WorkFile {
    pub path: String,
    pub hash: String,
}

impl WorkFile {
    pub fn from_content(path: &str, content: &[u8]) -> (r: WorkFile)
        ensures
            r.path@ == path@,
            r.hash@ == sha1_hex(content@),
    {
        WorkFile { path: path.to_string(), hash: calculate_hash(content) }
    }
}

pub open spec fn scan_views(v: Seq<WorkFile>) -> Seq<(Seq<char>, Seq<char>)> {
    Seq::new(v.len(), |i: int| (v[i].path@, v[i].hash@))
}

/// The scan holds a file at `p`.
pub open spec fn in_scan(scan: Seq<(Seq<char>, Seq<char>)>, p: Seq<char>) -> bool {
    exists|i: int| 0 <= i < scan.len() && #[trigger] scan[i].0 == p
}

/// The paths of the first `n` scanned files that the index files `fi`
/// hold with another hash.
pub open spec fn modified_paths(
    fi: Map<Seq<char>, Seq<char>>,
    scan: Seq<(Seq<char>, Seq<char>)>,
    n: nat,
) -> Seq<Seq<char>>
    decreases n,
{
    if n == 0 || n > scan.len() {
        Seq::empty()
    } else if fi.contains_key(scan[n - 1].0) && fi[scan[n - 1].0] != scan[n - 1].1 {
        modified_paths(fi, scan, (n - 1) as nat).push(scan[n - 1].0)
    } else {
        modified_paths(fi, scan, (n - 1) as nat)
    }
}

/// The paths of the first `n` scanned files that the index lacks.
pub open spec fn untracked_paths(
    fi: Map<Seq<char>, Seq<char>>,
    scan: Seq<(Seq<char>, Seq<char>)>,
    n: nat,
) -> Seq<Seq<char>>
    decreases n,
{
    if n == 0 || n > scan.len() {
        Seq::empty()
    } else if !fi.contains_key(scan[n - 1].0) {
        untracked_paths(fi, scan, (n - 1) as nat).push(scan[n - 1].0)
    } else {
        untracked_paths(fi, scan, (n - 1) as nat)
    }
}

/// A path on disk and its current metadata.
#[derive(Debug, Clone)]
pub struct PathMeta {
    pub path: String,
    pub meta: FileMeta,
}

/// The map from path to metadata that entries describe; the later of two
/// entries with one path counts.
pub open spec fn disk_map(d: Seq<PathMeta>) -> Map<Seq<char>, FileMeta>
    decreases d.len(),
{
    if d.len() == 0 {
        Map::empty()
    } else {
        disk_map(d.drop_last()).insert(d.last().path@, d.last().meta)
    }
}

/// Record `e` with the metadata `m`.
pub open spec fn with_meta(e: InfoView, m: FileMeta) -> InfoView {
    InfoView {
        ctime: m.ctime,
        mtime: m.mtime,
        size: m.size,
        permissions: m.permissions,
        ..e
    }
}

/// The blob records among the first `n` of `s` whose file is on disk, in
/// order, each with its metadata read afresh.
pub open spec fn refreshed(s: Seq<InfoView>, dm: Map<Seq<char>, FileMeta>, n: nat) -> Seq<InfoView>
    decreases n,
{
    if n == 0 || n > s.len() {
        Seq::empty()
    } else if s[n - 1].obj_type == blob_kind() && dm.contains_key(s[n - 1].path) {
        refreshed(s, dm, (n - 1) as nat).push(with_meta(s[n - 1], dm[s[n - 1].path]))
    } else {
        refreshed(s, dm, (n - 1) as nat)
    }
}

proof fn lemma_disk_last(d: Seq<PathMeta>, i: int)
    requires
        0 <= i < d.len(),
        forall|j: int| i < j < d.len() ==> d[j].path@ != d[i].path@,
    ensures
        disk_map(d).contains_key(d[i].path@),
        disk_map(d)[d[i].path@] == d[i].meta,
    decreases d.len(),
{
    if i < d.len() - 1 {
        lemma_disk_last(d.drop_last(), i);
    }
}

proof fn lemma_disk_absent(d: Seq<PathMeta>, p: Seq<char>)
    requires
        forall|j: int| 0 <= j < d.len() ==> d[j].path@ != p,
    ensures
        !disk_map(d).contains_key(p),
    decreases d.len(),
{
    if d.len() > 0 {
        lemma_disk_absent(d.drop_last(), p);
    }
}

/// The metadata that `on_disk` gives for `p`, if any.
pub fn disk_meta(on_disk: &Vec<PathMeta>, p: &str) -> (r: Option<FileMeta>)
    ensures
        r is Some <==> disk_map(on_disk@).contains_key(p@),
        r matches Some(m) ==> m == disk_map(on_disk@)[p@],
{
    let mut i: usize = on_disk.len();
    while i > 0
        invariant
            i <= on_disk.len(),
            forall|j: int| i <= j < on_disk.len() ==> on_disk@[j].path@ != p@,
        decreases i,
    {
        if str_eq(on_disk[i - 1].path.as_str(), p) {
            proof {
                lemma_disk_last(on_disk@, i - 1);
            }
            return Some(on_disk[i - 1].meta);
        }
        i -= 1;
    }
    proof {
        lemma_disk_absent(on_disk@, p@);
    }
    None
}

/// The paths of the first `n` records of `s`, each once, that the files
/// `f` lack.
pub open spec fn paths_not_in(s: Seq<InfoView>, f: Map<Seq<char>, Seq<char>>, n: nat) -> Seq<
    Seq<char>,
>
    decreases n,
{
    if n == 0 || n > s.len() {
        Seq::empty()
    } else if is_last_of_path(s, n - 1) && !f.contains_key(s[n - 1].path) {
        paths_not_in(s, f, (n - 1) as nat).push(s[n - 1].path)
    } else {
        paths_not_in(s, f, (n - 1) as nat)
    }
}

/// The paths of the first `n` records of `s`, each once, that the scan
/// lacks.
pub open spec fn paths_not_scanned(s: Seq<InfoView>, scan: Seq<(Seq<char>, Seq<char>)>, n: nat) -> Seq<
    Seq<char>,
>
    decreases n,
{
    if n == 0 || n > s.len() {
        Seq::empty()
    } else if is_last_of_path(s, n - 1) && !in_scan(scan, s[n - 1].path) {
        paths_not_scanned(s, scan, (n - 1) as nat).push(s[n - 1].path)
    } else {
        paths_not_scanned(s, scan, (n - 1) as nat)
    }
}

/// How the working tree, the index and the last commit differ.
#[derive(Debug, Clone)]
pub struct StatusReport {
    /// The branch HEAD points at.
    pub branch: String,
    /// Scanned files whose content differs from their index record.
    pub modified: Vec<String>,
    /// Scanned files without an index record.
    pub untracked: Vec<String>,
    /// Index paths that the last commit's tree lacks.
    pub added: Vec<String>,
    /// Paths of the last commit's tree that the scan lacks.
    pub deleted: Vec<String>,
}

fn scan_has(scan: &Vec<WorkFile>, p: &str) -> (r: bool)
    ensures
        r == in_scan(scan_views(scan@), p@),
{
    let ghost sv = scan_views(scan@);
    let mut i: usize = 0;
    while i < scan.len()
        invariant
            i <= scan.len(),
            sv == scan_views(scan@),
            forall|j: int| 0 <= j < i ==> sv[j].0 != p@,
        decreases scan.len() - i,
    {
        assert(sv[i as int].0 == scan[i as int].path@);
        if str_eq(scan[i].path.as_str(), p) {
            return true;
        }
        i += 1;
    }
    false
}

impl Repo {
    /// Compares the last commit's tree, the index and a scan of the working
    /// tree, and recomputes the index from disk: it keeps the blob records
    /// whose file `on_disk` gives metadata for, with that metadata.
    pub fn status_command(&mut self, scan: &Vec<WorkFile>, on_disk: &Vec<PathMeta>) -> (r: Result<
        StatusReport,
        VcsError,
    >)
        ensures
            final(self).store == old(self).store,
            final(self).branches == old(self).branches,
            final(self).head == old(self).head,
            ({
                let sv = scan_views(scan@);
                let tip = tip_of(refs_of(old(self).branches@), old(self).head@);
                let tree = commit_records(old(self).store@, tip);
                let fi = files_of(old(self).index@);
                let idx = refreshed(old(self).index@, disk_map(on_disk@), old(self).index@.len());
                &&& r is Ok <==> tree is Some
                &&& r is Err ==> final(self).index == old(self).index
                &&& r matches Ok(rep) ==> {
                    &&& rep.branch@ == old(self).head@
                    &&& views(rep.modified@) == modified_paths(fi, sv, sv.len())
                    &&& views(rep.untracked@) == untracked_paths(fi, sv, sv.len())
                    &&& final(self).index@ == idx
                    &&& views(rep.added@) == paths_not_in(idx, files_of(tree->0), idx.len())
                    &&& views(rep.deleted@) == paths_not_scanned(tree->0, sv, (tree->0).len())
                }
            }),
    {
        let tip = self.get_commit_from_branch(self.head.as_str());
        let tree = index_of_commit(&self.store, tip.as_str())?;
        let ghost sv = scan_views(scan@);
        let ghost fi = files_of(self.index@);
        let mut modified: Vec<String> = Vec::new();
        let mut untracked: Vec<String> = Vec::new();
        let mut i: usize = 0;
        while i < scan.len()
            invariant
                i <= scan.len(),
                sv == scan_views(scan@),
                fi == files_of(self.index@),
                views(modified@) == modified_paths(fi, sv, i as nat),
                views(untracked@) == untracked_paths(fi, sv, i as nat),
            decreases scan.len() - i,
        {
            let w = &scan[i];
            assert(sv[i as int] == (w.path@, w.hash@));
            match self.index.find_last(w.path.as_str()) {
                Some(k) => {
                    assert(self.index@[k as int] == self.index.obj@[k as int]@);
                    if self.index.obj[k].hash != w.hash {
                        modified.push(w.path.clone());
                        assert(views(modified@) =~= modified_paths(fi, sv, (i + 1) as nat));
                    }
                },
                None => {
                    untracked.push(w.path.clone());
                    assert(views(untracked@) =~= untracked_paths(fi, sv, (i + 1) as nat));
                },
            }
            i += 1;
        }
        let ghost dm = disk_map(on_disk@);
        let mut kept: Vec<ObjectInfo> = Vec::new();
        let mut k: usize = 0;
        while k < self.index.obj.len()
            invariant
                k <= self.index@.len(),
                self.index@.len() == self.index.obj.len(),
                dm == disk_map(on_disk@),
                info_views(kept@) == refreshed(self.index@, dm, k as nat),
            decreases self.index.obj.len() - k,
        {
            let e = &self.index.obj[k];
            assert(e@ == self.index@[k as int]);
            proof {
                reveal_strlit("blob");
                assert("blob"@ == blob_kind());
            }
            if str_eq(e.obj_type.as_str(), "blob") {
                match disk_meta(on_disk, e.path.as_str()) {
                    Some(m) => {
                        kept.push(
                            ObjectInfo {
                                obj_type: e.obj_type.clone(),
                                hash: e.hash.clone(),
                                ctime: m.ctime,
                                mtime: m.mtime,
                                path: e.path.clone(),
                                size: m.size,
                                permissions: m.permissions,
                            },
                        );
                        assert(info_views(kept@) =~= refreshed(self.index@, dm, (k + 1) as nat));
                    },
                    None => {},
                }
            }
            k += 1;
        }
        self.index = Index { obj: kept };
        let ghost ft = files_of(tree@);
        let mut added: Vec<String> = Vec::new();
        let mut a: usize = 0;
        while a < self.index.obj.len()
            invariant
                a <= self.index@.len(),
                self.index@.len() == self.index.obj.len(),
                ft == files_of(tree@),
                views(added@) == paths_not_in(self.index@, ft, a as nat),
            decreases self.index.obj.len() - a,
        {
            let e = &self.index.obj[a];
            assert(e@ == self.index@[a as int]);
            if self.index.last_of_path(a) && tree.find_last(e.path.as_str()).is_none() {
                added.push(e.path.clone());
                assert(views(added@) =~= paths_not_in(self.index@, ft, (a + 1) as nat));
            }
            a += 1;
        }
        let mut deleted: Vec<String> = Vec::new();
        let mut d: usize = 0;
        while d < tree.obj.len()
            invariant
                d <= tree@.len(),
                tree@.len() == tree.obj.len(),
                sv == scan_views(scan@),
                views(deleted@) == paths_not_scanned(tree@, sv, d as nat),
            decreases tree.obj.len() - d,
        {
            let e = &tree.obj[d];
            assert(e@ == tree@[d as int]);
            if tree.last_of_path(d) && !scan_has(scan, e.path.as_str()) {
                deleted.push(e.path.clone());
                assert(views(deleted@) =~= paths_not_scanned(tree@, sv, (d + 1) as nat));
            }
            d += 1;
        }
        Ok(StatusReport { branch: self.head.clone(), modified, untracked, added, deleted })
    }
}

/// The parent that the current commit is compared with: the only one, or
/// the second of a merge commit's parents.
pub open spec fn compared_parent(ps: Seq<Seq<char>>) -> Seq<char> {
    if ps.len() == 1 {
        ps[0]
    } else {
        ps[1]
    }
}

/// The per-path diff of the trees of commits `c1` and `c2`.
pub open spec fn commits_diff(store: Map<Seq<char>, Seq<u8>>, c1: Seq<char>, c2: Seq<char>) -> Option<
    Seq<crate::diff::FileDiffView>,
> {
    match (commit_records(store, c1), commit_records(store, c2)) {
        (Some(a), Some(b)) => tree_diff(store, a, b),
        _ => None,
    }
}

impl Repo {
    /// The diff of HEAD's commit against its parent (the second parent of a
    /// merge commit). A branch without commits, or a first commit, has
    /// nothing to compare with.
    pub fn diff_between_current_last_commit(&self) -> (r: Result<Vec<FileDiff>, VcsError>)
        ensures
            ({
                let c = tip_of(refs_of(self.branches@), self.head@);
                let f = commit_fields(self.store@, c);
                &&& (c.len() == 0 || (f is Some && (f->0).1.len() == 0)) ==> (r matches Err(e)
                    && e is InvalidArgument)
                &&& c.len() > 0 && f is None ==> r is Err
                &&& c.len() > 0 && f is Some && (f->0).1.len() > 0 ==> {
                    let d = commits_diff(self.store@, compared_parent((f->0).1), c);
                    &&& r is Ok <==> d is Some
                    &&& r matches Ok(v) ==> file_diff_views(v@) == d->0
                }
            }),
    {
        let current = self.get_commit_from_branch(self.head.as_str());
        if current.as_str().is_empty() {
            return Err(VcsError::InvalidArgument(self.head.clone()));
        }
        let parents = get_commit_parent(&self.store, current.as_str())?;
        if parents.len() == 0 {
            return Err(VcsError::InvalidArgument(current));
        }
        let previous = if parents.len() == 1 {
            &parents[0]
        } else {
            &parents[1]
        };
        assert(previous@ == compared_parent(views(parents@)));
        diff_between_commits(&self.store, previous.as_str(), current.as_str())
    }

    /// The diff between the commits of two branches; a branch without a
    /// commit counts as an empty tree.
    pub fn diff_between_branches(&self, branch1: &str, branch2: &str) -> (r: Result<
        Vec<FileDiff>,
        VcsError,
    >)
        ensures
            ({
                let d = commits_diff(
                    self.store@,
                    tip_of(refs_of(self.branches@), branch1@),
                    tip_of(refs_of(self.branches@), branch2@),
                );
                &&& r is Ok <==> d is Some
                &&& r matches Ok(v) ==> file_diff_views(v@) == d->0
            }),
    {
        let c1 = self.get_commit_from_branch(branch1);
        let c2 = self.get_commit_from_branch(branch2);
        diff_between_commits(&self.store, c1.as_str(), c2.as_str())
    }
}

/// A commit made on a branch whose tip is `tip` extends it: where the tree
/// and the tip are non-empty lines and the message is non-empty, free of
/// carriage returns and does not start with a line feed, the new commit
/// reads back with `tip` as its only parent, so `tip` is its ancestor and a
/// branch still at `tip` can be fast-forwarded to it.
pub proof fn lemma_commit_extends_tip(
    store: Map<Seq<char>, Seq<u8>>,
    id: Seq<char>,
    tree: Seq<char>,
    tip: Seq<char>,
    message: Seq<char>,
    fuel: nat,
)
    requires
        commit_fields(store, id) == parse_commit(commit_text(tree, parents_for(tip), message)),
        tree.len() > 0,
        is_line_safe(tree),
        tip.len() > 0,
        is_line_safe(tip),
        message.len() > 0,
        message[0] != '\n',
        forall|i: int| 0 <= i < message.len() ==> #[trigger] message[i] != '\r',
        fuel > 0,
    ensures
        commit_fields(store, id) == Some((tree, seq![tip], message)),
        reaches(store, tip, id, fuel),
{
    let ps = parents_for(tip);
    assert(ps == seq![tip]);
    assert forall|i: int| 0 <= i < ps.len() implies is_line_safe(#[trigger] ps[i]) by {
        assert(ps[i] == tip);
    }
    lemma_commit_round_trip(tree, ps, message);
    lemma_parent_reaches(store, id, tip, fuel);
}

proof fn lemma_object_id_is_line(s: Seq<char>)
    requires
        is_object_id(s),
    ensures
        s.len() > 0,
        is_line_safe(s),
{
    assert forall|i: int| 0 <= i < s.len() implies #[trigger] s[i] != '\n' && s[i] != '\r' by {
        assert(is_hex_digit(s[i]));
    }
}

/// A commit that `commit_command` or `commit_tree_command` made reads back
/// as its tree, its parents and its message, where the tree and any parent
/// are object identities and the message is non-empty, free of carriage
/// returns and does not start with a line feed.
pub proof fn lemma_committed_fields(
    store: Map<Seq<char>, Seq<u8>>,
    id: Seq<char>,
    tree: Seq<char>,
    tip: Seq<char>,
    message: Seq<char>,
)
    requires
        commit_fields(store, id) == parse_commit(commit_text(tree, parents_for(tip), message)),
        is_object_id(tree),
        tip.len() == 0 || is_object_id(tip),
        message.len() > 0,
        message[0] != '\n',
        forall|i: int| 0 <= i < message.len() ==> #[trigger] message[i] != '\r',
    ensures
        commit_fields(store, id) == Some((tree, parents_for(tip), message)),
{
    lemma_object_id_is_line(tree);
    let ps = parents_for(tip);
    if tip.len() > 0 {
        lemma_object_id_is_line(tip);
    }
    assert forall|i: int| 0 <= i < ps.len() implies is_line_safe(#[trigger] ps[i]) by {
        assert(ps[i] == tip);
    }
    lemma_commit_round_trip(tree, ps, message);
}

} // verus!
