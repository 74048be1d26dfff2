//! Reading commits and trees back out of the store, and walking history.
use vstd::prelude::*;
use crate::diff::{diff_between_obj, file_diff_views, tree_diff, FileDiff};
use crate::error::VcsError;
use crate::index::{parse_index, Index, InfoView};
use crate::repo::blob_kind;
use crate::objects::{parse_commit, CommitContent};
use crate::store::{object_text, ObjectStore};
use crate::text::{str_eq, views};

verus! {

/// The tree, parents and message of the commit stored under `c`.
pub open spec fn commit_fields(store: Map<Seq<char>, Seq<u8>>, c: Seq<char>) -> Option<
    (Seq<char>, Seq<Seq<char>>, Seq<char>),
> {
    match object_text(store, c) {
        Some(t) => parse_commit(t),
        None => None,
    }
}

/// The records of the tree stored under `t`.
pub open spec fn tree_records(store: Map<Seq<char>, Seq<u8>>, t: Seq<char>) -> Option<
    Seq<InfoView>,
> {
    match object_text(store, t) {
        Some(text) => parse_index(text),
        None => None,
    }
}

/// The records of the tree of commit `c`; no commit yet (an empty id) has
/// no records.
pub open spec fn commit_records(store: Map<Seq<char>, Seq<u8>>, c: Seq<char>) -> Option<
    Seq<InfoView>,
> {
    if c.len() == 0 {
        Some(Seq::empty())
    } else {
        match commit_fields(store, c) {
            Some(f) => tree_records(store, f.0),
            None => None,
        }
    }
}

/// Reads the commit stored under `commit_hash`.
pub fn read_commit(store: &ObjectStore, commit_hash: &str) -> (r: Result<CommitContent, VcsError>)
    ensures
        r is Ok <==> commit_fields(store@, commit_hash@) is Some,
        r matches Ok(c) ==> commit_fields(store@, commit_hash@) == Some(
            (c.tree@, views(c.parents@), c.message@),
        ),
        r matches Err(e) ==> (e is NotFound || e is Corrupt || e is Malformed),
{
    let text = store.dec_obj(commit_hash)?;
    CommitContent::from_pretty_print(text.as_str())
}

/// The tree of the commit stored under `commit_hash`.
pub fn get_tree_from_commit(store: &ObjectStore, commit_hash: &str) -> (r: Result<String, VcsError>)
    ensures
        r is Ok <==> commit_fields(store@, commit_hash@) is Some,
        r matches Ok(t) ==> t@ == (commit_fields(store@, commit_hash@)->0).0,
        r matches Err(e) ==> (e is NotFound || e is Corrupt || e is Malformed),
{
    let c = read_commit(store, commit_hash)?;
    Ok(c.tree)
}

/// The parents of the commit stored under `commit_hash`.
pub fn get_commit_parent(store: &ObjectStore, commit_hash: &str) -> (r: Result<Vec<String>, VcsError>)
    ensures
        r is Ok <==> commit_fields(store@, commit_hash@) is Some,
        r matches Ok(ps) ==> views(ps@) == (commit_fields(store@, commit_hash@)->0).1,
{
    let c = read_commit(store, commit_hash)?;
    Ok(c.parents)
}

/// The records of the tree stored under `tree_hash`.
pub fn build_index_from_tree(store: &ObjectStore, tree_hash: &str) -> (r: Result<Index, VcsError>)
    ensures
        r is Ok <==> tree_records(store@, tree_hash@) is Some,
        r matches Ok(idx) ==> idx@ == tree_records(store@, tree_hash@)->0,
        r matches Err(e) ==> (e is NotFound || e is Corrupt || e is Malformed),
{
    let text = store.dec_obj(tree_hash)?;
    Index::parse(text.as_str())
}

/// The records of the tree of commit `commit_hash`, empty for no commit.
pub fn index_of_commit(store: &ObjectStore, commit_hash: &str) -> (r: Result<Index, VcsError>)
    ensures
        r is Ok <==> commit_records(store@, commit_hash@) is Some,
        r matches Ok(idx) ==> idx@ == commit_records(store@, commit_hash@)->0,
        r matches Err(e) ==> (e is NotFound || e is Corrupt || e is Malformed),
{
    if commit_hash.is_empty() {
        return Ok(Index::new());
    }
    let tree = get_tree_from_commit(store, commit_hash)?;
    build_index_from_tree(store, tree.as_str())
}

/// The per-path diff between the trees of two commits.
pub fn diff_between_commits(store: &ObjectStore, commit_hash1: &str, commit_hash2: &str) -> (r:
    Result<Vec<FileDiff>, VcsError>)
    ensures
        r is Ok <==> (commit_records(store@, commit_hash1@) is Some && commit_records(
            store@,
            commit_hash2@,
        ) is Some && tree_diff(
            store@,
            commit_records(store@, commit_hash1@)->0,
            commit_records(store@, commit_hash2@)->0,
        ) is Some),
        r matches Ok(v) ==> file_diff_views(v@) == tree_diff(
            store@,
            commit_records(store@, commit_hash1@)->0,
            commit_records(store@, commit_hash2@)->0,
        )->0,
{
    let a = index_of_commit(store, commit_hash1)?;
    let b = index_of_commit(store, commit_hash2)?;
    diff_between_obj(store, &a, &b)
}

/// Whether `target` is `from` or can be reached from it by following
/// parent links at most `fuel` times. A commit that does not read has no
/// parents.
pub open spec fn reaches(
    store: Map<Seq<char>, Seq<u8>>,
    target: Seq<char>,
    from: Seq<char>,
    fuel: nat,
) -> bool
    decreases fuel, 0nat,
{
    from == target || (fuel > 0 && match commit_fields(store, from) {
        Some(f) => any_reaches(store, target, f.1, (fuel - 1) as nat, f.1.len()),
        None => false,
    })
}

/// Whether `target` is reached from one of the first `n` of `ps`.
pub open spec fn any_reaches(
    store: Map<Seq<char>, Seq<u8>>,
    target: Seq<char>,
    ps: Seq<Seq<char>>,
    fuel: nat,
    n: nat,
) -> bool
    decreases fuel, n + 1,
{
    n > 0 && n <= ps.len() && (any_reaches(store, target, ps, fuel, (n - 1) as nat) || reaches(
        store,
        target,
        ps[n - 1],
        fuel,
    ))
}

/// Whether `target` is `from` or one of its ancestors within `fuel` links.
pub fn reaches_within(store: &ObjectStore, target: &str, from: &str, fuel: usize) -> (r: bool)
    ensures
        r == reaches(store@, target@, from@, fuel as nat),
    decreases fuel, 0nat,
{
    if str_eq(from, target) {
        return true;
    }
    if fuel == 0 {
        return false;
    }
    match read_commit(store, from) {
        Ok(c) => any_parent_reaches(store, target, &c.parents, fuel - 1, c.parents.len()),
        Err(_) => false,
    }
}

fn any_parent_reaches(
    store: &ObjectStore,
    target: &str,
    ps: &Vec<String>,
    fuel: usize,
    n: usize,
) -> (r: bool)
    requires
        n <= ps.len(),
    ensures
        r == any_reaches(store@, target@, views(ps@), fuel as nat, n as nat),
    decreases fuel, n + 1,
{
    if n == 0 {
        return false;
    }
    if any_parent_reaches(store, target, ps, fuel, n - 1) {
        return true;
    }
    assert(views(ps@)[n - 1] == ps@[n - 1]@);
    reaches_within(store, target, ps[n - 1].as_str(), fuel)
}

/// Whether `ancestor` is `descendant` or one of its ancestors. The walk
/// follows at most as many links as the store holds objects.
pub fn is_ancestor(store: &ObjectStore, ancestor: &str, descendant: &str) -> (r: bool)
    ensures
        r == reaches(store@, ancestor@, descendant@, store.objects.len() as nat),
{
    reaches_within(store, ancestor, descendant, store.objects.len())
}

/// The path and hash of each blob record among the first `n` of `s`.
pub open spec fn blob_entries(s: Seq<InfoView>, n: nat) -> Seq<(Seq<char>, Seq<char>)>
    decreases n,
{
    if n == 0 || n > s.len() {
        Seq::empty()
    } else if s[n - 1].obj_type == blob_kind() {
        blob_entries(s, (n - 1) as nat).push((s[n - 1].path, s[n - 1].hash))
    } else {
        blob_entries(s, (n - 1) as nat)
    }
}

pub open spec fn pair_views(v: Seq<(String, String)>) -> Seq<(Seq<char>, Seq<char>)> {
    Seq::new(v.len(), |i: int| (v[i].0@, v[i].1@))
}

/// The path and hash of each blob of the tree stored under `tree_hash`, in
/// its order.
pub fn get_files_from_tree(store: &ObjectStore, tree_hash: &str) -> (r: Result<
    Vec<(String, String)>,
    VcsError,
>)
    ensures
        r is Ok <==> tree_records(store@, tree_hash@) is Some,
        r matches Ok(v) ==> pair_views(v@) == blob_entries(
            tree_records(store@, tree_hash@)->0,
            (tree_records(store@, tree_hash@)->0).len(),
        ),
{
    let idx = build_index_from_tree(store, tree_hash)?;
    let mut out: Vec<(String, String)> = Vec::new();
    let mut i: usize = 0;
    while i < idx.obj.len()
        invariant
            i <= idx@.len(),
            idx@.len() == idx.obj.len(),
            pair_views(out@) == blob_entries(idx@, i as nat),
        decreases idx.obj.len() - i,
    {
        let e = &idx.obj[i];
        assert(e@ == idx@[i as int]);
        proof {
            reveal_strlit("blob");
            assert("blob"@ == blob_kind());
        }
        if str_eq(e.obj_type.as_str(), "blob") {
            out.push((e.path.clone(), e.hash.clone()));
            assert(pair_views(out@) =~= blob_entries(idx@, (i + 1) as nat));
        }
        i += 1;
    }
    Ok(out)
}

/// A commit whose only parent is `p` has `p` among its ancestors.
pub proof fn lemma_parent_reaches(
    store: Map<Seq<char>, Seq<u8>>,
    c: Seq<char>,
    p: Seq<char>,
    fuel: nat,
)
    requires
        fuel > 0,
        commit_fields(store, c) is Some,
        (commit_fields(store, c)->0).1 == seq![p],
    ensures
        reaches(store, p, c, fuel),
{
    let ps = (commit_fields(store, c)->0).1;
    assert(reaches(store, p, ps[0], (fuel - 1) as nat));
    assert(!any_reaches(store, p, ps, (fuel - 1) as nat, 0));
    assert(any_reaches(store, p, ps, (fuel - 1) as nat, 1));
}

/// The first commit on the first-parent chain from `c`, within `steps`
/// links, that is an ancestor of `t2` within `fuel` links.
pub open spec fn base_from(
    store: Map<Seq<char>, Seq<u8>>,
    c: Seq<char>,
    t2: Seq<char>,
    fuel: nat,
    steps: nat,
) -> Option<Seq<char>>
    decreases steps,
{
    if reaches(store, c, t2, fuel) {
        Some(c)
    } else if steps == 0 {
        None
    } else {
        match commit_fields(store, c) {
            Some(f) => if f.1.len() > 0 {
                base_from(store, f.1[0], t2, fuel, (steps - 1) as nat)
            } else {
                None
            },
            None => None,
        }
    }
}

/// The merge base of `t1` and `t2`: the first commit on `t1`'s
/// first-parent chain that is also an ancestor of `t2`; the walk follows
/// at most as many links as the store holds objects. Empty where there is
/// none.
pub open spec fn merge_base(store: &ObjectStore, t1: Seq<char>, t2: Seq<char>) -> Seq<char> {
    match base_from(store@, t1, t2, store.objects.len() as nat, store.objects.len() as nat) {
        Some(c) => c,
        None => Seq::empty(),
    }
}

/// Finds the merge base of `t1` and `t2`; see [`merge_base`].
pub fn find_merge_base(store: &ObjectStore, t1: &str, t2: &str) -> (r: String)
    ensures
        r@ == merge_base(store, t1@, t2@),
{
    let fuel = store.objects.len();
    let mut c = t1.to_string();
    let mut steps: usize = fuel;
    while true
        invariant
            steps <= fuel,
            fuel == store.objects.len(),
            base_from(store@, t1@, t2@, fuel as nat, fuel as nat) == base_from(
                store@,
                c@,
                t2@,
                fuel as nat,
                steps as nat,
            ),
        decreases steps,
    {
        if is_ancestor(store, c.as_str(), t2) {
            return c;
        }
        if steps == 0 {
            return String::new();
        }
        match read_commit(store, c.as_str()) {
            Ok(cc) => {
                if cc.parents.len() == 0 {
                    return String::new();
                }
                assert(views(cc.parents@)[0] == cc.parents@[0]@);
                c = cc.parents[0].clone();
                steps -= 1;
            },
            Err(_) => {
                return String::new();
            },
        }
    }
    String::new()
}

} // verus!
