//! Line diffs between texts and per-path diffs between trees.
use vstd::prelude::*;
use crate::error::VcsError;
use crate::index::{files_of, is_last_of_path, lemma_files_last, Index, InfoView};
use crate::store::{object_text, ObjectStore};
use crate::text::{lines, lines_of, push_str, string_of, views};

verus! {

broadcast use vstd::string::group_string_axioms;

/// One line of a diff.
#[derive(Debug, Clone, PartialEq, Eq)]
pub enum DiffLine {
    /// The line is in both texts.
    Context(String),
    /// The line is only in the first text.
    Deleted(String),
    /// The line is only in the second text.
    Inserted(String),
}

/// The mathematical value of a [`DiffLine`].
pub enum LineOp {
    Context(Seq<char>),
    Deleted(Seq<char>),
    Inserted(Seq<char>),
}

impl View for DiffLine {
    type V = LineOp;

    open spec fn view(&self) -> LineOp {
        match self {
            DiffLine::Context(s) => LineOp::Context(s@),
            DiffLine::Deleted(s) => LineOp::Deleted(s@),
            DiffLine::Inserted(s) => LineOp::Inserted(s@),
        }
    }
}

pub open spec fn op_views(v: Seq<DiffLine>) -> Seq<LineOp> {
    Seq::new(v.len(), |i: int| v[i]@)
}

/// The greedy diff of `a` from line `i` against `b` from line `j`: equal
/// lines are context and advance both sides; otherwise a line of `a` is
/// deleted while `a` has lines left, and then the lines of `b` are inserted.
pub open spec fn greedy_diff(a: Seq<Seq<char>>, b: Seq<Seq<char>>, i: nat, j: nat) -> Seq<LineOp>
    decreases (a.len() - i) + (b.len() - j),
{
    if i > a.len() || j > b.len() {
        Seq::empty()
    } else if i < a.len() && j < b.len() && a[i as int] == b[j as int] {
        seq![LineOp::Context(a[i as int])] + greedy_diff(a, b, i + 1, j + 1)
    } else if i < a.len() {
        seq![LineOp::Deleted(a[i as int])] + greedy_diff(a, b, i + 1, j)
    } else if j < b.len() {
        seq![LineOp::Inserted(b[j as int])] + greedy_diff(a, b, i, j + 1)
    } else {
        Seq::empty()
    }
}

/// The greedy line diff of two texts.
pub open spec fn diff_of(a: Seq<char>, b: Seq<char>) -> Seq<LineOp> {
    greedy_diff(lines_of(a), lines_of(b), 0, 0)
}

/// The greedy line diff of `content1` against `content2`.
pub fn diff_lines(content1: &str, content2: &str) -> (r: Vec<DiffLine>)
    ensures
        op_views(r@) == diff_of(content1@, content2@),
{
    let lines1 = lines(content1);
    let lines2 = lines(content2);
    let ghost a = lines_of(content1@);
    let ghost b = lines_of(content2@);
    let mut out: Vec<DiffLine> = Vec::new();
    let mut i: usize = 0;
    let mut j: usize = 0;
    while i < lines1.len() || j < lines2.len()
        invariant
            i <= lines1.len(),
            j <= lines2.len(),
            views(lines1@) == a,
            views(lines2@) == b,
            op_views(out@) + greedy_diff(a, b, i as nat, j as nat) == greedy_diff(a, b, 0, 0),
        decreases (lines1.len() - i) + (lines2.len() - j),
    {
        let ghost before = out@;
        let ghost gi = i as nat;
        let ghost gj = j as nat;
        if i < lines1.len() && j < lines2.len() && lines1[i] == lines2[j] {
            assert(a[i as int] == lines1[i as int]@);
            out.push(DiffLine::Context(lines1[i].clone()));
            i += 1;
            j += 1;
        } else if i < lines1.len() {
            assert(a[i as int] == lines1[i as int]@);
            assert(j < lines2.len() ==> b[j as int] == lines2[j as int]@);
            out.push(DiffLine::Deleted(lines1[i].clone()));
            i += 1;
        } else {
            assert(b[j as int] == lines2[j as int]@);
            out.push(DiffLine::Inserted(lines2[j].clone()));
            j += 1;
        }
        assert(greedy_diff(a, b, gi, gj) == seq![out@.last()@] + greedy_diff(a, b, i as nat, j as nat));
        assert(op_views(out@) =~= op_views(before).push(out@.last()@));
        assert(op_views(out@) + greedy_diff(a, b, i as nat, j as nat) =~= op_views(before)
            + greedy_diff(a, b, gi, gj));
    }
    assert(greedy_diff(a, b, i as nat, j as nat) == Seq::<LineOp>::empty());
    assert(op_views(out@) =~= op_views(out@) + Seq::<LineOp>::empty());
    out
}

proof fn lemma_diff_self_from(a: Seq<Seq<char>>, i: nat)
    requires
        i <= a.len(),
    ensures
        greedy_diff(a, a, i, i).len() == a.len() - i,
        forall|k: int|
            0 <= k < greedy_diff(a, a, i, i).len() ==> #[trigger] greedy_diff(a, a, i, i)[k]
                == LineOp::Context(a[i + k]),
    decreases a.len() - i,
{
    if i < a.len() {
        lemma_diff_self_from(a, i + 1);
        let rest = greedy_diff(a, a, i + 1, i + 1);
        assert forall|k: int| 0 <= k < greedy_diff(a, a, i, i).len() implies #[trigger] greedy_diff(
            a,
            a,
            i,
            i,
        )[k] == LineOp::Context(a[i + k]) by {
            if k > 0 {
                assert(greedy_diff(a, a, i, i)[k] == rest[k - 1]);
            }
        }
    }
}

/// The diff of a text against itself is all context: one line of context
/// per line of the text, in order.
pub proof fn lemma_diff_self_is_context(t: Seq<char>)
    ensures
        diff_of(t, t).len() == lines_of(t).len(),
        forall|k: int|
            0 <= k < diff_of(t, t).len() ==> #[trigger] diff_of(t, t)[k] == LineOp::Context(
                lines_of(t)[k],
            ),
{
    lemma_diff_self_from(lines_of(t), 0);
}

/// The text form of one diff line: two spaces, `- ` or `+ ` in front.
pub open spec fn op_text(op: LineOp) -> Seq<char> {
    match op {
        LineOp::Context(s) => seq![' ', ' '] + s + seq!['\n'],
        LineOp::Deleted(s) => seq!['-', ' '] + s + seq!['\n'],
        LineOp::Inserted(s) => seq!['+', ' '] + s + seq!['\n'],
    }
}

pub open spec fn ops_text(ops: Seq<LineOp>) -> Seq<char>
    decreases ops.len(),
{
    if ops.len() == 0 {
        Seq::empty()
    } else {
        ops_text(ops.drop_last()) + op_text(ops.last())
    }
}

/// Appends the text form of `ops` to `out`.
pub fn push_diff_text(out: &mut Vec<char>, ops: &Vec<DiffLine>)
    ensures
        final(out)@ == old(out)@ + ops_text(op_views(ops@)),
{
    let mut i: usize = 0;
    while i < ops.len()
        invariant
            i <= ops.len(),
            out@ == old(out)@ + ops_text(op_views(ops@).take(i as int)),
        decreases ops.len() - i,
    {
        match &ops[i] {
            DiffLine::Context(s) => {
                out.push(' ');
                out.push(' ');
                push_str(out, s.as_str());
            },
            DiffLine::Deleted(s) => {
                out.push('-');
                out.push(' ');
                push_str(out, s.as_str());
            },
            DiffLine::Inserted(s) => {
                out.push('+');
                out.push(' ');
                push_str(out, s.as_str());
            },
        }
        out.push('\n');
        assert(op_views(ops@).take(i + 1).drop_last() == op_views(ops@).take(i as int));
        i += 1;
    }
    assert(op_views(ops@).take(ops.len() as int) == op_views(ops@));
}

/// The greedy line diff of two texts, one marked line per diff line.
pub fn diff_between_content(content1: &str, content2: &str) -> (r: String)
    ensures
        r@ == ops_text(diff_of(content1@, content2@)),
{
    let ops = diff_lines(content1, content2);
    let mut out: Vec<char> = Vec::new();
    push_diff_text(&mut out, &ops);
    string_of(&out)
}

/// How a path differs between two trees.
#[derive(Debug, Clone, Copy, PartialEq, Eq)]
pub enum ChangeKind {
    /// Only the second tree has the path.
    Added,
    /// Only the first tree has the path.
    Deleted,
    /// Both have it, with different content.
    Modified,
}

/// The diff of one path between two trees.
#[derive(Debug, Clone)]
pub struct FileDiff {
    pub path: String,
    pub kind: ChangeKind,
    pub lines: Vec<DiffLine>,
}

/// The mathematical value of a [`FileDiff`].
pub struct FileDiffView {
    pub path: Seq<char>,
    pub kind: ChangeKind,
    pub ops: Seq<LineOp>,
}

impl View for FileDiff {
    type V = FileDiffView;

    open spec fn view(&self) -> FileDiffView {
        FileDiffView { path: self.path@, kind: self.kind, ops: op_views(self.lines@) }
    }
}

pub open spec fn file_diff_views(v: Seq<FileDiff>) -> Seq<FileDiffView> {
    Seq::new(v.len(), |i: int| v[i]@)
}

/// The records for the paths of the first tree, `a`, in its order, each
/// path once at its last record: deleted where the second tree's files
/// `fb` lack it, modified where they hold another hash. `None` where a blob
/// that a record needs does not read as text.
pub open spec fn old_side_diffs(
    store: Map<Seq<char>, Seq<u8>>,
    a: Seq<InfoView>,
    fb: Map<Seq<char>, Seq<char>>,
    n: nat,
) -> Option<Seq<FileDiffView>>
    decreases n,
{
    if n == 0 || n > a.len() {
        Some(Seq::empty())
    } else {
        match old_side_diffs(store, a, fb, (n - 1) as nat) {
            None => None,
            Some(rs) => {
                let e = a[n - 1];
                if !is_last_of_path(a, n - 1) {
                    Some(rs)
                } else if !fb.contains_key(e.path) {
                    match object_text(store, e.hash) {
                        Some(t) => Some(
                            rs.push(
                                FileDiffView {
                                    path: e.path,
                                    kind: ChangeKind::Deleted,
                                    ops: diff_of(t, Seq::empty()),
                                },
                            ),
                        ),
                        None => None,
                    }
                } else if fb[e.path] != e.hash {
                    match (object_text(store, e.hash), object_text(store, fb[e.path])) {
                        (Some(t1), Some(t2)) => Some(
                            rs.push(
                                FileDiffView {
                                    path: e.path,
                                    kind: ChangeKind::Modified,
                                    ops: diff_of(t1, t2),
                                },
                            ),
                        ),
                        _ => None,
                    }
                } else {
                    Some(rs)
                }
            },
        }
    }
}

/// The records for the paths that only the second tree, `b`, has, in its
/// order, each path once at its last record.
pub open spec fn new_side_diffs(
    store: Map<Seq<char>, Seq<u8>>,
    b: Seq<InfoView>,
    fa: Map<Seq<char>, Seq<char>>,
    n: nat,
) -> Option<Seq<FileDiffView>>
    decreases n,
{
    if n == 0 || n > b.len() {
        Some(Seq::empty())
    } else {
        match new_side_diffs(store, b, fa, (n - 1) as nat) {
            None => None,
            Some(rs) => {
                let e = b[n - 1];
                if !is_last_of_path(b, n - 1) || fa.contains_key(e.path) {
                    Some(rs)
                } else {
                    match object_text(store, e.hash) {
                        Some(t) => Some(
                            rs.push(
                                FileDiffView {
                                    path: e.path,
                                    kind: ChangeKind::Added,
                                    ops: diff_of(Seq::empty(), t),
                                },
                            ),
                        ),
                        None => None,
                    }
                }
            },
        }
    }
}

/// The per-path diff of tree `a` against tree `b`: the paths of `a` that
/// are deleted or modified, then the paths added in `b`. Paths with equal
/// hashes give no record.
pub open spec fn tree_diff(store: Map<Seq<char>, Seq<u8>>, a: Seq<InfoView>, b: Seq<InfoView>) -> Option<
    Seq<FileDiffView>,
> {
    match (
        old_side_diffs(store, a, files_of(b), a.len()),
        new_side_diffs(store, b, files_of(a), b.len()),
    ) {
        (Some(x), Some(y)) => Some(x + y),
        _ => None,
    }
}

proof fn lemma_old_side_self(store: Map<Seq<char>, Seq<u8>>, a: Seq<InfoView>, n: nat)
    requires
        n <= a.len(),
    ensures
        old_side_diffs(store, a, files_of(a), n) == Some(Seq::<FileDiffView>::empty()),
    decreases n,
{
    if n > 0 {
        lemma_old_side_self(store, a, (n - 1) as nat);
        if is_last_of_path(a, n - 1) {
            lemma_files_last(a, n - 1);
        }
    }
}

proof fn lemma_new_side_self(store: Map<Seq<char>, Seq<u8>>, a: Seq<InfoView>, n: nat)
    requires
        n <= a.len(),
    ensures
        new_side_diffs(store, a, files_of(a), n) == Some(Seq::<FileDiffView>::empty()),
    decreases n,
{
    if n > 0 {
        lemma_new_side_self(store, a, (n - 1) as nat);
        if is_last_of_path(a, n - 1) {
            lemma_files_last(a, n - 1);
        }
    }
}

/// A tree diffed against itself yields no added, deleted or modified path,
/// whatever the store holds.
pub proof fn lemma_tree_diff_self_is_empty(store: Map<Seq<char>, Seq<u8>>, t: Seq<InfoView>)
    ensures
        tree_diff(store, t, t) == Some(Seq::<FileDiffView>::empty()),
{
    lemma_old_side_self(store, t, t.len());
    lemma_new_side_self(store, t, t.len());
    assert(Seq::<FileDiffView>::empty() + Seq::<FileDiffView>::empty() =~= Seq::<
        FileDiffView,
    >::empty());
}

/// The per-path diff of the records `obj1` against the records `obj2`,
/// reading blob contents from `store`.
pub fn diff_between_obj(store: &ObjectStore, obj1: &Index, obj2: &Index) -> (r: Result<
    Vec<FileDiff>,
    VcsError,
>)
    ensures
        r is Ok <==> tree_diff(store@, obj1@, obj2@) is Some,
        r matches Ok(v) ==> file_diff_views(v@) == tree_diff(store@, obj1@, obj2@)->0,
{
    let ghost fa = files_of(obj1@);
    let ghost fb = files_of(obj2@);
    let mut out: Vec<FileDiff> = Vec::new();
    let mut i: usize = 0;
    while i < obj1.obj.len()
        invariant
            i <= obj1@.len(),
            obj1@.len() == obj1.obj.len(),
            fb == files_of(obj2@),
            old_side_diffs(store@, obj1@, fb, i as nat) == Some(file_diff_views(out@)),
        decreases obj1.obj.len() - i,
    {
        let e = &obj1.obj[i];
        assert(e@ == obj1@[i as int]);
        if obj1.last_of_path(i) {
            match obj2.find_last(e.path.as_str()) {
                None => {
                    match store.dec_obj(e.hash.as_str()) {
                        Ok(t) => {
                            let ops = diff_lines(t.as_str(), "");
                            proof {
                                reveal_strlit("");
                            }
                            out.push(FileDiff { path: e.path.clone(), kind: ChangeKind::Deleted, lines: ops });
                            assert(file_diff_views(out@) =~= old_side_diffs(store@, obj1@, fb, (i + 1) as nat)->0);
                        },
                        Err(err) => {
                            proof {
                                lemma_old_side_none(store@, obj1@, fb, (i + 1) as nat, obj1@.len());
                            }
                            return Err(err);
                        },
                    }
                },
                Some(k) => {
                    let other = &obj2.obj[k];
                    assert(other@ == obj2@[k as int]);
                    if other.hash != e.hash {
                        match (store.dec_obj(e.hash.as_str()), store.dec_obj(other.hash.as_str())) {
                            (Ok(t1), Ok(t2)) => {
                                let ops = diff_lines(t1.as_str(), t2.as_str());
                                out.push(FileDiff { path: e.path.clone(), kind: ChangeKind::Modified, lines: ops });
                                assert(file_diff_views(out@) =~= old_side_diffs(store@, obj1@, fb, (i + 1) as nat)->0);
                            },
                            (Err(err), _) => {
                                proof {
                                    lemma_old_side_none(store@, obj1@, fb, (i + 1) as nat, obj1@.len());
                                }
                                return Err(err);
                            },
                            (_, Err(err)) => {
                                proof {
                                    lemma_old_side_none(store@, obj1@, fb, (i + 1) as nat, obj1@.len());
                                }
                                return Err(err);
                            },
                        }
                    }
                },
            }
        }
        i += 1;
    }
    let ghost n1 = out@.len();
    let mut j: usize = 0;
    while j < obj2.obj.len()
        invariant
            j <= obj2@.len(),
            obj2@.len() == obj2.obj.len(),
            fa == files_of(obj1@),
            fb == files_of(obj2@),
            n1 <= out@.len(),
            old_side_diffs(store@, obj1@, fb, obj1@.len()) == Some(file_diff_views(out@).take(n1 as int)),
            new_side_diffs(store@, obj2@, fa, j as nat) == Some(file_diff_views(out@).skip(n1 as int)),
        decreases obj2.obj.len() - j,
    {
        let e = &obj2.obj[j];
        assert(e@ == obj2@[j as int]);
        if obj2.last_of_path(j) {
            match obj1.find_last(e.path.as_str()) {
                None => {
                    match store.dec_obj(e.hash.as_str()) {
                        Ok(t) => {
                            let ops = diff_lines("", t.as_str());
                            proof {
                                reveal_strlit("");
                            }
                            let ghost before = file_diff_views(out@);
                            out.push(FileDiff { path: e.path.clone(), kind: ChangeKind::Added, lines: ops });
                            assert(file_diff_views(out@).take(n1 as int) =~= before.take(n1 as int));
                            assert(file_diff_views(out@).skip(n1 as int) =~= new_side_diffs(store@, obj2@, fa, (j + 1) as nat)->0);
                        },
                        Err(err) => {
                            proof {
                                lemma_new_side_none(store@, obj2@, fa, (j + 1) as nat, obj2@.len());
                            }
                            return Err(err);
                        },
                    }
                },
                Some(_) => {},
            }
        }
        j += 1;
    }
    assert(file_diff_views(out@) =~= file_diff_views(out@).take(n1 as int) + file_diff_views(out@).skip(n1 as int));
    Ok(out)
}

proof fn lemma_old_side_none(
    store: Map<Seq<char>, Seq<u8>>,
    a: Seq<InfoView>,
    fb: Map<Seq<char>, Seq<char>>,
    n: nat,
    m: nat,
)
    requires
        0 < n <= m <= a.len(),
        old_side_diffs(store, a, fb, n) is None,
    ensures
        old_side_diffs(store, a, fb, m) is None,
    decreases m - n,
{
    if n < m {
        lemma_old_side_none(store, a, fb, n, (m - 1) as nat);
    }
}

proof fn lemma_new_side_none(
    store: Map<Seq<char>, Seq<u8>>,
    b: Seq<InfoView>,
    fa: Map<Seq<char>, Seq<char>>,
    n: nat,
    m: nat,
)
    requires
        0 < n <= m <= b.len(),
        new_side_diffs(store, b, fa, n) is None,
    ensures
        new_side_diffs(store, b, fa, m) is None,
    decreases m - n,
{
    if n < m {
        lemma_new_side_none(store, b, fa, n, (m - 1) as nat);
    }
}

/// Two one-record trees holding one path with different content: the diff
/// is that path, modified, with the line diff of the two blobs.
pub proof fn lemma_single_file_modified(store: Map<Seq<char>, Seq<u8>>, a: InfoView, b: InfoView)
    requires
        a.path == b.path,
        a.hash != b.hash,
        object_text(store, a.hash) is Some,
        object_text(store, b.hash) is Some,
    ensures
        tree_diff(store, seq![a], seq![b]) == Some(
            seq![
                FileDiffView {
                    path: a.path,
                    kind: ChangeKind::Modified,
                    ops: diff_of(object_text(store, a.hash)->0, object_text(store, b.hash)->0),
                },
            ],
        ),
{
    let sa = seq![a];
    let sb = seq![b];
    assert(is_last_of_path(sa, 0));
    assert(is_last_of_path(sb, 0));
    lemma_files_last(sa, 0);
    lemma_files_last(sb, 0);
    assert(old_side_diffs(store, sa, files_of(sb), 0) == Some(Seq::<FileDiffView>::empty()));
    assert(new_side_diffs(store, sb, files_of(sa), 0) == Some(Seq::<FileDiffView>::empty()));
    assert(new_side_diffs(store, sb, files_of(sa), 1) == Some(Seq::<FileDiffView>::empty()));
    assert(Seq::<FileDiffView>::empty().push(
        FileDiffView {
            path: a.path,
            kind: ChangeKind::Modified,
            ops: diff_of(object_text(store, a.hash)->0, object_text(store, b.hash)->0),
        },
    ) + Seq::<FileDiffView>::empty() =~= seq![
        FileDiffView {
            path: a.path,
            kind: ChangeKind::Modified,
            ops: diff_of(object_text(store, a.hash)->0, object_text(store, b.hash)->0),
        },
    ]);
}

/// Two different lines, each a text of one line: the greedy diff deletes
/// the first and inserts the second.
pub proof fn lemma_one_line_changed(l1: Seq<char>, l2: Seq<char>)
    requires
        l1 != l2,
    ensures
        greedy_diff(seq![l1], seq![l2], 0, 0) == seq![LineOp::Deleted(l1), LineOp::Inserted(l2)],
{
    let a = seq![l1];
    let b = seq![l2];
    assert(greedy_diff(a, b, 1, 1) == Seq::<LineOp>::empty());
    assert(greedy_diff(a, b, 1, 0) == seq![LineOp::Inserted(l2)] + greedy_diff(a, b, 1, 1));
    assert(greedy_diff(a, b, 0, 0) == seq![LineOp::Deleted(l1)] + greedy_diff(a, b, 1, 0));
    assert(greedy_diff(a, b, 0, 0) =~= seq![LineOp::Deleted(l1), LineOp::Inserted(l2)]);
}

} // verus!
