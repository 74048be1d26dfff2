//! Path-union tree merges and the fast-forward / three-way merge policies.
use vstd::prelude::*;
use vstd::utf8::encode_utf8;
use crate::compression::zlib_of;
use crate::error::VcsError;
use crate::history::{
    build_index_from_tree, commit_records, find_merge_base, index_of_commit, is_ancestor, merge_base,
    reaches, tree_records,
};
use crate::index::{files_of, index_text, is_last_of_path, without_paths, Index, InfoView};
use crate::objects::{tree_id, Commit, Tree};
use crate::repo::{commit_id, commit_payload, refs_of, tip_of, Repo};
use crate::store::ObjectStore;
use crate::text::views;

verus! {

broadcast use vstd::string::group_string_axioms;

/// The path-union of `a` and `b`: each record of `b` in turn replaces the
/// records of its path.
pub open spec fn merged(a: Seq<InfoView>, b: Seq<InfoView>) -> Seq<InfoView>
    decreases b.len(),
{
    if b.len() == 0 {
        a
    } else {
        without_paths(merged(a, b.drop_last()), seq![b.last().path]).push(b.last())
    }
}

proof fn lemma_files_without_one(s: Seq<InfoView>, p: Seq<char>)
    ensures
        files_of(without_paths(s, seq![p])) == files_of(s).remove(p),
    decreases s.len(),
{
    if s.len() > 0 {
        lemma_files_without_one(s.drop_last(), p);
        let q = s.last().path;
        assert(seq![p].contains(q) <==> q == p) by {
            if q == p {
                assert(seq![p][0] == q);
            }
        }
        if q == p {
            assert(files_of(without_paths(s, seq![p])) =~= files_of(s).remove(p));
        } else {
            let w = without_paths(s.drop_last(), seq![p]).push(s.last());
            assert(w.drop_last() == without_paths(s.drop_last(), seq![p]));
            assert(files_of(w) =~= files_of(s).remove(p));
        }
    } else {
        assert(files_of(s).remove(p) =~= Map::empty());
    }
}

/// The files of a merge are those of `a` and `b` together; where both hold
/// a path, `b`'s hash wins.
pub proof fn lemma_merged_files(a: Seq<InfoView>, b: Seq<InfoView>)
    ensures
        files_of(merged(a, b)) == files_of(a).union_prefer_right(files_of(b)),
    decreases b.len(),
{
    if b.len() == 0 {
        assert(files_of(a).union_prefer_right(files_of(b)) =~= files_of(a));
    } else {
        lemma_merged_files(a, b.drop_last());
        lemma_files_without_one(merged(a, b.drop_last()), b.last().path);
        let m = without_paths(merged(a, b.drop_last()), seq![b.last().path]).push(b.last());
        assert(m.drop_last() == without_paths(merged(a, b.drop_last()), seq![b.last().path]));
        assert(files_of(m) =~= files_of(a).union_prefer_right(files_of(b)));
    }
}

/// The path-union of the records `a` and `b`, `b`'s winning on a shared path.
pub fn merge_indexes(a: &Index, b: &Index) -> (r: Index)
    ensures
        r@ == merged(a@, b@),
{
    let mut m = Index::new();
    let mut i: usize = 0;
    while i < a.obj.len()
        invariant
            i <= a@.len(),
            a@.len() == a.obj.len(),
            m@ == a@.take(i as int),
        decreases a.obj.len() - i,
    {
        m.add_object(a.obj[i].duplicate());
        assert(a@.take(i + 1) == a@.take(i as int).push(a@[i as int]));
        i += 1;
    }
    assert(a@.take(a@.len() as int) == a@);
    let mut j: usize = 0;
    while j < b.obj.len()
        invariant
            j <= b@.len(),
            b@.len() == b.obj.len(),
            m@ == merged(a@, b@.take(j as int)),
        decreases b.obj.len() - j,
    {
        let e = &b.obj[j];
        assert(e@ == b@[j as int]);
        let gone = vec![e.path.clone()];
        assert(views(gone@) =~= seq![e@.path]);
        m.clean_index(&gone);
        m.add_object(e.duplicate());
        assert(b@.take(j + 1).drop_last() == b@.take(j as int));
        j += 1;
    }
    assert(b@.take(b@.len() as int) == b@);
    m
}

/// The hash that files `f` give path `p`, or `None` where they lack it.
pub open spec fn version(f: Map<Seq<char>, Seq<char>>, p: Seq<char>) -> Option<Seq<char>> {
    if f.contains_key(p) {
        Some(f[p])
    } else {
        None
    }
}

/// Both sides changed `p` from the base `fo`, and differently.
pub open spec fn diverged(
    fa: Map<Seq<char>, Seq<char>>,
    fb: Map<Seq<char>, Seq<char>>,
    fo: Map<Seq<char>, Seq<char>>,
    p: Seq<char>,
) -> bool {
    version(fa, p) != version(fb, p) && version(fa, p) != version(fo, p) && version(fb, p)
        != version(fo, p)
}

/// Only the first side changed `p` from the base `fo`.
pub open spec fn ours_only(
    fa: Map<Seq<char>, Seq<char>>,
    fb: Map<Seq<char>, Seq<char>>,
    fo: Map<Seq<char>, Seq<char>>,
    p: Seq<char>,
) -> bool {
    version(fb, p) == version(fo, p) && version(fa, p) != version(fo, p)
}

/// The diverged paths among the first `n` records of `s`, each once, that
/// `skip` does not hold.
pub open spec fn diverged_paths(
    s: Seq<InfoView>,
    fa: Map<Seq<char>, Seq<char>>,
    fb: Map<Seq<char>, Seq<char>>,
    fo: Map<Seq<char>, Seq<char>>,
    skip: Map<Seq<char>, Seq<char>>,
    n: nat,
) -> Seq<Seq<char>>
    decreases n,
{
    if n == 0 || n > s.len() {
        Seq::empty()
    } else if is_last_of_path(s, n - 1) && !skip.contains_key(s[n - 1].path) && diverged(
        fa,
        fb,
        fo,
        s[n - 1].path,
    ) {
        diverged_paths(s, fa, fb, fo, skip, (n - 1) as nat).push(s[n - 1].path)
    } else {
        diverged_paths(s, fa, fb, fo, skip, (n - 1) as nat)
    }
}

/// The paths that `a` and `b` both changed from the base `o`, and
/// differently: those `a` holds, then those only `b` holds.
pub open spec fn genuine_conflicts(a: Seq<InfoView>, b: Seq<InfoView>, o: Seq<InfoView>) -> Seq<
    Seq<char>,
> {
    let (fa, fb, fo) = (files_of(a), files_of(b), files_of(o));
    diverged_paths(a, fa, fb, fo, Map::empty(), a.len()) + diverged_paths(b, fa, fb, fo, fa, b.len())
}

/// `m` with the records of the first `n` of `a` that only `a` changed put
/// in place of `m`'s records of their paths.
pub open spec fn take_ours(
    m: Seq<InfoView>,
    a: Seq<InfoView>,
    fa: Map<Seq<char>, Seq<char>>,
    fb: Map<Seq<char>, Seq<char>>,
    fo: Map<Seq<char>, Seq<char>>,
    n: nat,
) -> Seq<InfoView>
    decreases n,
{
    if n == 0 || n > a.len() {
        m
    } else if is_last_of_path(a, n - 1) && ours_only(fa, fb, fo, a[n - 1].path) {
        without_paths(take_ours(m, a, fa, fb, fo, (n - 1) as nat), seq![a[n - 1].path]).push(
            a[n - 1],
        )
    } else {
        take_ours(m, a, fa, fb, fo, (n - 1) as nat)
    }
}

/// `m` without the paths of the first `n` records of the base `o` that
/// only the first side deleted.
pub open spec fn drop_ours_deleted(
    m: Seq<InfoView>,
    o: Seq<InfoView>,
    fa: Map<Seq<char>, Seq<char>>,
    fb: Map<Seq<char>, Seq<char>>,
    fo: Map<Seq<char>, Seq<char>>,
    n: nat,
) -> Seq<InfoView>
    decreases n,
{
    if n == 0 || n > o.len() {
        m
    } else if is_last_of_path(o, n - 1) && !fa.contains_key(o[n - 1].path) && ours_only(
        fa,
        fb,
        fo,
        o[n - 1].path,
    ) {
        without_paths(drop_ours_deleted(m, o, fa, fb, fo, (n - 1) as nat), seq![o[n - 1].path])
    } else {
        drop_ours_deleted(m, o, fa, fb, fo, (n - 1) as nat)
    }
}

/// The three-way merge of `a` and `b` from the base `o`: the path-union of
/// `a` and `b` with `b` winning, except that a path only `a` changed takes
/// `a`'s version (or is gone, where `a` deleted it).
pub open spec fn resolved(a: Seq<InfoView>, b: Seq<InfoView>, o: Seq<InfoView>) -> Seq<InfoView> {
    let (fa, fb, fo) = (files_of(a), files_of(b), files_of(o));
    drop_ours_deleted(take_ours(merged(a, b), a, fa, fb, fo, a.len()), o, fa, fb, fo, o.len())
}

pub open spec fn opt_view(x: Option<String>) -> Option<Seq<char>> {
    match x {
        Some(s) => Some(s@),
        None => None,
    }
}

/// The hash of the last record of path `p` in `idx`, if any.
fn version_of(idx: &Index, p: &str) -> (r: Option<String>)
    ensures
        opt_view(r) == version(files_of(idx@), p@),
{
    match idx.find_last(p) {
        Some(k) => {
            assert(idx@[k as int] == idx.obj@[k as int]@);
            Some(idx.obj[k].hash.clone())
        },
        None => None,
    }
}

fn same_version(x: &Option<String>, y: &Option<String>) -> (r: bool)
    ensures
        r == (opt_view(*x) == opt_view(*y)),
{
    match (x, y) {
        (Some(a), Some(b)) => *a == *b,
        (None, None) => true,
        _ => false,
    }
}

fn diverged_exec(a: &Index, b: &Index, o: &Index, p: &str) -> (r: bool)
    ensures
        r == diverged(files_of(a@), files_of(b@), files_of(o@), p@),
{
    let va = version_of(a, p);
    let vb = version_of(b, p);
    let vo = version_of(o, p);
    !same_version(&va, &vb) && !same_version(&va, &vo) && !same_version(&vb, &vo)
}

fn ours_only_exec(a: &Index, b: &Index, o: &Index, p: &str) -> (r: bool)
    ensures
        r == ours_only(files_of(a@), files_of(b@), files_of(o@), p@),
{
    let va = version_of(a, p);
    let vb = version_of(b, p);
    let vo = version_of(o, p);
    same_version(&vb, &vo) && !same_version(&va, &vo)
}

/// The paths that `a` and `b` both changed from the base `o`, differently.
pub fn diverged_files(a: &Index, b: &Index, o: &Index) -> (r: Vec<String>)
    ensures
        views(r@) == genuine_conflicts(a@, b@, o@),
{
    let ghost (fa, fb, fo) = (files_of(a@), files_of(b@), files_of(o@));
    let mut out: Vec<String> = Vec::new();
    let mut i: usize = 0;
    while i < a.obj.len()
        invariant
            i <= a@.len(),
            a@.len() == a.obj.len(),
            fa == files_of(a@) && fb == files_of(b@) && fo == files_of(o@),
            views(out@) == diverged_paths(a@, fa, fb, fo, Map::empty(), i as nat),
        decreases a.obj.len() - i,
    {
        let e = &a.obj[i];
        assert(e@ == a@[i as int]);
        if a.last_of_path(i) && diverged_exec(a, b, o, e.path.as_str()) {
            out.push(e.path.clone());
            assert(views(out@) =~= diverged_paths(a@, fa, fb, fo, Map::empty(), (i + 1) as nat));
        }
        i += 1;
    }
    let ghost n1 = out@.len();
    let mut j: usize = 0;
    while j < b.obj.len()
        invariant
            j <= b@.len(),
            b@.len() == b.obj.len(),
            fa == files_of(a@) && fb == files_of(b@) && fo == files_of(o@),
            n1 <= out@.len(),
            views(out@).take(n1 as int) == diverged_paths(a@, fa, fb, fo, Map::empty(), a@.len()),
            views(out@).skip(n1 as int) == diverged_paths(b@, fa, fb, fo, fa, j as nat),
        decreases b.obj.len() - j,
    {
        let e = &b.obj[j];
        assert(e@ == b@[j as int]);
        if b.last_of_path(j) && a.find_last(e.path.as_str()).is_none() && diverged_exec(
            a,
            b,
            o,
            e.path.as_str(),
        ) {
            let ghost before = views(out@);
            out.push(e.path.clone());
            assert(views(out@).take(n1 as int) =~= before.take(n1 as int));
            assert(views(out@).skip(n1 as int) =~= diverged_paths(b@, fa, fb, fo, fa, (j + 1) as nat));
        }
        j += 1;
    }
    assert(views(out@) =~= views(out@).take(n1 as int) + views(out@).skip(n1 as int));
    out
}

/// The three-way merge of `a` and `b` from the base `o`; see [`resolved`].
pub fn resolve_indexes(a: &Index, b: &Index, o: &Index) -> (r: Index)
    ensures
        r@ == resolved(a@, b@, o@),
{
    let ghost (fa, fb, fo) = (files_of(a@), files_of(b@), files_of(o@));
    let mut m = merge_indexes(a, b);
    let ghost m0 = m@;
    let mut i: usize = 0;
    while i < a.obj.len()
        invariant
            i <= a@.len(),
            a@.len() == a.obj.len(),
            fa == files_of(a@) && fb == files_of(b@) && fo == files_of(o@),
            m0 == merged(a@, b@),
            m@ == take_ours(m0, a@, fa, fb, fo, i as nat),
        decreases a.obj.len() - i,
    {
        let e = &a.obj[i];
        assert(e@ == a@[i as int]);
        if a.last_of_path(i) && ours_only_exec(a, b, o, e.path.as_str()) {
            let gone = vec![e.path.clone()];
            assert(views(gone@) =~= seq![e@.path]);
            m.clean_index(&gone);
            m.add_object(e.duplicate());
        }
        i += 1;
    }
    let ghost m1 = m@;
    let mut k: usize = 0;
    while k < o.obj.len()
        invariant
            k <= o@.len(),
            o@.len() == o.obj.len(),
            fa == files_of(a@) && fb == files_of(b@) && fo == files_of(o@),
            m1 == take_ours(merged(a@, b@), a@, fa, fb, fo, a@.len()),
            m@ == drop_ours_deleted(m1, o@, fa, fb, fo, k as nat),
        decreases o.obj.len() - k,
    {
        let e = &o.obj[k];
        assert(e@ == o@[k as int]);
        if o.last_of_path(k) && a.find_last(e.path.as_str()).is_none() && ours_only_exec(
            a,
            b,
            o,
            e.path.as_str(),
        ) {
            let gone = vec![e.path.clone()];
            assert(views(gone@) =~= seq![e@.path]);
            m.clean_index(&gone);
        }
        k += 1;
    }
    m
}

impl Tree {
    /// The path-union of the trees stored under `tree1` and `tree2`, the
    /// second winning on a shared path.
    pub fn merge_tree(store: &ObjectStore, tree1: &str, tree2: &str) -> (r: Result<Index, VcsError>)
        ensures
            r is Ok <==> (tree_records(store@, tree1@) is Some && tree_records(store@, tree2@) is Some),
            r matches Ok(m) ==> m@ == merged(
                tree_records(store@, tree1@)->0,
                tree_records(store@, tree2@)->0,
            ),
    {
        let a = build_index_from_tree(store, tree1)?;
        let b = build_index_from_tree(store, tree2)?;
        Ok(merge_indexes(&a, &b))
    }
}

/// The tree of a merge: the path-union, `b` winning, when conflicts are
/// resolved automatically; else the three-way merge from the base `o`.
pub open spec fn merge_tree_of(
    a: Seq<InfoView>,
    b: Seq<InfoView>,
    o: Seq<InfoView>,
    auto_resolve: bool,
) -> Seq<InfoView> {
    if auto_resolve {
        merged(a, b)
    } else {
        resolved(a, b, o)
    }
}

/// The message of a merge commit.
pub open spec fn merge_message() -> Seq<char> {
    seq!['M', 'E', 'R', 'G', 'E', ' ', 'C', 'O', 'M', 'M', 'I', 'T']
}

/// What a merge did.
#[derive(Debug, Clone, PartialEq, Eq)]
pub enum MergeOutcome {
    /// The other branch's commit was already in the history: nothing to do.
    UpToDate,
    /// The branch was advanced to this commit.
    FastForward(String),
    /// This two-parent commit was created.
    MergeCommit(String),
}

/// Whether commit `anc` is `desc` or one of its ancestors, within as many
/// links as the store holds objects.
pub open spec fn ancestor_in(store: &ObjectStore, anc: Seq<char>, desc: Seq<char>) -> bool {
    reaches(store@, anc, desc, store.objects.len() as nat)
}

impl Repo {
    /// Merges branch `branch2` into branch `branch1` with a commit whose
    /// parents are their two commits. With `auto_resolve`, its tree is the
    /// path-union of their trees, `branch2`'s records winning. Without it,
    /// each side is compared with their merge base: a path that both sides
    /// changed, differently, is a conflict and nothing is merged; otherwise
    /// each path takes the version of the side that changed it.
    pub fn three_way_merge(&mut self, branch1: &str, branch2: &str, auto_resolve: bool) -> (r: Result<
        String,
        VcsError,
    >)
        ensures
            final(self).index == old(self).index,
            final(self).head == old(self).head,
            ({
                let refs = refs_of(old(self).branches@);
                let t1 = tip_of(refs, branch1@);
                let t2 = tip_of(refs, branch2@);
                let ra = commit_records(old(self).store@, t1);
                let rb = commit_records(old(self).store@, t2);
                let ro = commit_records(old(self).store@, merge_base(&old(self).store, t1, t2));
                let valid = refs.contains_key(branch1@) && refs.contains_key(branch2@) && t1.len()
                    > 0 && t2.len() > 0;
                let readable = ra is Some && rb is Some && (auto_resolve || ro is Some);
                let blocked = !auto_resolve && genuine_conflicts(ra->0, rb->0, ro->0).len() > 0;
                let m = merge_tree_of(ra->0, rb->0, ro->0, auto_resolve);
                let tid = tree_id(index_text(m));
                let ps = seq![t1, t2];
                &&& !valid ==> (r matches Err(e) && e is InvalidArgument)
                &&& r is Ok <==> (valid && readable && !blocked)
                &&& (r matches Err(e) && e is Conflict) <==> (valid && readable && blocked)
                &&& r matches Err(VcsError::Conflict(c)) ==> views(c@) == genuine_conflicts(
                    ra->0,
                    rb->0,
                    ro->0,
                )
                &&& r is Err ==> final(self).branches == old(self).branches && final(self).store
                    == old(self).store
                &&& r matches Ok(id) ==> {
                    &&& id@ == commit_id(tid, ps, merge_message())
                    &&& final(self).store@ == old(self).store@.insert(
                        tid,
                        zlib_of(encode_utf8(index_text(m))),
                    ).insert(id@, commit_payload(tid, ps, merge_message()))
                    &&& refs_of(final(self).branches@) == refs.insert(branch1@, id@)
                }
            }),
    {
        if !self.has_branch(branch1) {
            return Err(VcsError::InvalidArgument(branch1.to_string()));
        }
        if !self.has_branch(branch2) {
            return Err(VcsError::InvalidArgument(branch2.to_string()));
        }
        let t1 = self.get_commit_from_branch(branch1);
        let t2 = self.get_commit_from_branch(branch2);
        if t1.as_str().is_empty() {
            return Err(VcsError::InvalidArgument(branch1.to_string()));
        }
        if t2.as_str().is_empty() {
            return Err(VcsError::InvalidArgument(branch2.to_string()));
        }
        let a = index_of_commit(&self.store, t1.as_str())?;
        let b = index_of_commit(&self.store, t2.as_str())?;
        let m = if auto_resolve {
            merge_indexes(&a, &b)
        } else {
            let base = find_merge_base(&self.store, t1.as_str(), t2.as_str());
            let o = index_of_commit(&self.store, base.as_str())?;
            let c = diverged_files(&a, &b, &o);
            if c.len() > 0 {
                return Err(VcsError::Conflict(c));
            }
            resolve_indexes(&a, &b, &o)
        };
        let tree = Tree::new_tree_from_index(&m);
        tree.create_tree_from_index(&mut self.store, &m);
        let parents = vec![t1, t2];
        let ghost ps = views(parents@);
        assert(ps =~= seq![t1@, t2@]);
        proof {
            reveal_strlit("MERGE COMMIT");
            assert("MERGE COMMIT"@ == merge_message());
        }
        let commit = Commit::new(tree.id.clone(), parents, "MERGE COMMIT".to_string());
        commit.create_commit(&mut self.store);
        self.set_branch(branch1, commit.id.as_str());
        Ok(commit.id)
    }

    /// Advances branch `branch1` to the commit of branch `branch2`, where
    /// `branch1` has no commit yet or its commit is an ancestor of that one.
    pub fn fast_forward_merge(&mut self, branch1: &str, branch2: &str) -> (r: Result<String, VcsError>)
        ensures
            final(self).index == old(self).index,
            final(self).head == old(self).head,
            final(self).store == old(self).store,
            ({
                let refs = refs_of(old(self).branches@);
                let t1 = tip_of(refs, branch1@);
                let t2 = tip_of(refs, branch2@);
                &&& (!refs.contains_key(branch1@) || !refs.contains_key(branch2@)) ==> (r matches Err(
                    e,
                ) && e is InvalidArgument)
                &&& refs.contains_key(branch1@) && refs.contains_key(branch2@) ==> {
                    &&& r is Ok <==> (t1.len() == 0 || ancestor_in(&old(self).store, t1, t2))
                    &&& r matches Err(e) ==> e is NotFastForward
                }
                &&& r matches Ok(c) ==> c@ == t2 && refs_of(final(self).branches@) == refs.insert(
                    branch1@,
                    t2,
                )
                &&& r is Err ==> final(self).branches == old(self).branches
            }),
    {
        if !self.has_branch(branch1) {
            return Err(VcsError::InvalidArgument(branch1.to_string()));
        }
        if !self.has_branch(branch2) {
            return Err(VcsError::InvalidArgument(branch2.to_string()));
        }
        let t1 = self.get_commit_from_branch(branch1);
        let t2 = self.get_commit_from_branch(branch2);
        if t1.as_str().is_empty() || is_ancestor(&self.store, t1.as_str(), t2.as_str()) {
            self.set_branch(branch1, t2.as_str());
            Ok(t2)
        } else {
            Err(VcsError::NotFastForward)
        }
    }

    /// Merges branch `branch` into HEAD's branch: nothing where its commit
    /// is already in HEAD's history, a fast-forward where HEAD's commit is
    /// in its history, else a three-way merge.
    pub fn merge(&mut self, branch: &str, auto_resolve: bool) -> (r: Result<MergeOutcome, VcsError>)
        ensures
            final(self).index == old(self).index,
            final(self).head == old(self).head,
            ({
                let refs = refs_of(old(self).branches@);
                let th = tip_of(refs, old(self).head@);
                let tb = tip_of(refs, branch@);
                let st = &old(self).store;
                let up_to_date = tb.len() == 0 || ancestor_in(st, tb, th);
                let forward = th.len() == 0 || ancestor_in(st, th, tb);
                let rh = commit_records(old(self).store@, th);
                let rb = commit_records(old(self).store@, tb);
                let ro = commit_records(old(self).store@, merge_base(st, th, tb));
                let readable = rh is Some && rb is Some && (auto_resolve || ro is Some);
                let blocked = !auto_resolve && genuine_conflicts(rh->0, rb->0, ro->0).len() > 0;
                let m = merge_tree_of(rh->0, rb->0, ro->0, auto_resolve);
                let tid = tree_id(index_text(m));
                &&& !refs.contains_key(branch@) ==> (r matches Err(e) && e is InvalidArgument)
                &&& refs.contains_key(branch@) && up_to_date ==> r == Ok::<
                    MergeOutcome,
                    VcsError,
                >(MergeOutcome::UpToDate)
                &&& refs.contains_key(branch@) && !up_to_date && forward ==> (r matches Ok(
                    MergeOutcome::FastForward(c),
                ) && c@ == tb && refs_of(final(self).branches@) == refs.insert(
                    old(self).head@,
                    tb,
                ))
                &&& refs.contains_key(branch@) && !up_to_date && !forward ==> (r is Ok ==> r matches Ok(
                    MergeOutcome::MergeCommit(_),
                ))
                &&& refs.contains_key(branch@) && !up_to_date && !forward ==> (r is Ok <==> (
                readable && !blocked))
                &&& (r matches Err(e) && e is Conflict) <==> (refs.contains_key(branch@) && !up_to_date
                    && !forward && readable && blocked)
                &&& r matches Ok(MergeOutcome::MergeCommit(id)) ==> {
                    &&& id@ == commit_id(tid, seq![th, tb], merge_message())
                    &&& refs_of(final(self).branches@) == refs.insert(old(self).head@, id@)
                    &&& final(self).store@ == old(self).store@.insert(
                        tid,
                        zlib_of(encode_utf8(index_text(m))),
                    ).insert(id@, commit_payload(tid, seq![th, tb], merge_message()))
                }
                &&& r is Err ==> final(self).branches == old(self).branches
                &&& r == Ok::<MergeOutcome, VcsError>(MergeOutcome::UpToDate) ==> final(self).branches
                    == old(self).branches
            }),
    {
        if !self.has_branch(branch) {
            return Err(VcsError::InvalidArgument(branch.to_string()));
        }
        let th = self.get_commit_from_branch(self.head.as_str());
        let tb = self.get_commit_from_branch(branch);
        if tb.as_str().is_empty() || is_ancestor(&self.store, tb.as_str(), th.as_str()) {
            return Ok(MergeOutcome::UpToDate);
        }
        let head = self.head.clone();
        if th.as_str().is_empty() || is_ancestor(&self.store, th.as_str(), tb.as_str()) {
            self.set_branch(head.as_str(), tb.as_str());
            return Ok(MergeOutcome::FastForward(tb));
        }
        let id = self.three_way_merge(head.as_str(), branch, auto_resolve)?;
        Ok(MergeOutcome::MergeCommit(id))
    }
}

} // verus!
