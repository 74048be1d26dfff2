//! Commit statistics, read from the structured per-path diff records, and
//! the sections of a rendered diff.
use vstd::prelude::*;
use crate::diff::{file_diff_views, tree_diff, ChangeKind, DiffLine, FileDiff, FileDiffView, LineOp, op_views};
use crate::error::VcsError;
use crate::history::{commit_records, diff_between_commits};
use crate::store::ObjectStore;
use crate::text::{decimal, lines, lines_of, push_decimal, push_str, string_of, views};

verus! {

broadcast use vstd::string::group_string_axioms;

/// The inserted lines among `ops`.
pub open spec fn count_inserted(ops: Seq<LineOp>) -> nat
    decreases ops.len(),
{
    if ops.len() == 0 {
        0
    } else {
        count_inserted(ops.drop_last()) + if ops.last() is Inserted {
            1nat
        } else {
            0nat
        }
    }
}

/// The deleted lines among `ops`.
pub open spec fn count_deleted(ops: Seq<LineOp>) -> nat
    decreases ops.len(),
{
    if ops.len() == 0 {
        0
    } else {
        count_deleted(ops.drop_last()) + if ops.last() is Deleted {
            1nat
        } else {
            0nat
        }
    }
}

/// The records of kind `k` among `v`.
pub open spec fn count_kind(v: Seq<FileDiffView>, k: ChangeKind) -> nat
    decreases v.len(),
{
    if v.len() == 0 {
        0
    } else {
        count_kind(v.drop_last(), k) + if v.last().kind == k {
            1nat
        } else {
            0nat
        }
    }
}

impl FileDiff {
    /// How many lines the diff inserts.
    pub fn insertions(&self) -> (r: usize)
        ensures
            r == count_inserted(self@.ops),
    {
        let mut n: usize = 0;
        let mut i: usize = 0;
        while i < self.lines.len()
            invariant
                i <= self.lines.len(),
                n == count_inserted(op_views(self.lines@).take(i as int)),
                n <= i,
            decreases self.lines.len() - i,
        {
            assert(op_views(self.lines@).take(i + 1).drop_last() == op_views(self.lines@).take(
                i as int,
            ));
            match &self.lines[i] {
                DiffLine::Inserted(_) => {
                    n += 1;
                },
                _ => {},
            }
            i += 1;
        }
        assert(op_views(self.lines@).take(self.lines.len() as int) == op_views(self.lines@));
        n
    }

    /// How many lines the diff deletes.
    pub fn deletions(&self) -> (r: usize)
        ensures
            r == count_deleted(self@.ops),
    {
        let mut n: usize = 0;
        let mut i: usize = 0;
        while i < self.lines.len()
            invariant
                i <= self.lines.len(),
                n == count_deleted(op_views(self.lines@).take(i as int)),
                n <= i,
            decreases self.lines.len() - i,
        {
            assert(op_views(self.lines@).take(i + 1).drop_last() == op_views(self.lines@).take(
                i as int,
            ));
            match &self.lines[i] {
                DiffLine::Deleted(_) => {
                    n += 1;
                },
                _ => {},
            }
            i += 1;
        }
        assert(op_views(self.lines@).take(self.lines.len() as int) == op_views(self.lines@));
        n
    }
}

/// The line counts of one changed path.
#[derive(Debug, Clone)]
pub struct FileStat {
    pub path: String,
    pub kind: ChangeKind,
    pub insertions: usize,
    pub deletions: usize,
}

/// How many paths a commit adds, deletes and modifies, and the line counts
/// of each.
#[derive(Debug, Clone)]
pub struct CommitSummary {
    pub added: usize,
    pub deleted: usize,
    pub modified: usize,
    pub files: Vec<FileStat>,
}

/// The statistics that the records `v` give, one per record.
pub open spec fn stats_match(files: Seq<FileStat>, v: Seq<FileDiffView>) -> bool {
    &&& files.len() == v.len()
    &&& forall|i: int|
        0 <= i < v.len() ==> {
            &&& (#[trigger] files[i]).path@ == v[i].path
            &&& files[i].kind == v[i].kind
            &&& files[i].insertions == count_inserted(v[i].ops)
            &&& files[i].deletions == count_deleted(v[i].ops)
        }
}

/// Counts the records of each kind and the lines each record inserts and
/// deletes.
pub fn summarize(diffs: &Vec<FileDiff>) -> (r: CommitSummary)
    ensures
        r.added == count_kind(file_diff_views(diffs@), ChangeKind::Added),
        r.deleted == count_kind(file_diff_views(diffs@), ChangeKind::Deleted),
        r.modified == count_kind(file_diff_views(diffs@), ChangeKind::Modified),
        stats_match(r.files@, file_diff_views(diffs@)),
{
    let ghost v = file_diff_views(diffs@);
    let mut added: usize = 0;
    let mut deleted: usize = 0;
    let mut modified: usize = 0;
    let mut files: Vec<FileStat> = Vec::new();
    let mut i: usize = 0;
    while i < diffs.len()
        invariant
            i <= diffs.len(),
            v == file_diff_views(diffs@),
            added == count_kind(v.take(i as int), ChangeKind::Added),
            deleted == count_kind(v.take(i as int), ChangeKind::Deleted),
            modified == count_kind(v.take(i as int), ChangeKind::Modified),
            added <= i && deleted <= i && modified <= i,
            stats_match(files@, v.take(i as int)),
        decreases diffs.len() - i,
    {
        let d = &diffs[i];
        assert(d@ == v[i as int]);
        assert(v.take(i + 1).drop_last() == v.take(i as int));
        match d.kind {
            ChangeKind::Added => {
                added += 1;
            },
            ChangeKind::Deleted => {
                deleted += 1;
            },
            ChangeKind::Modified => {
                modified += 1;
            },
        }
        files.push(
            FileStat {
                path: d.path.clone(),
                kind: d.kind,
                insertions: d.insertions(),
                deletions: d.deletions(),
            },
        );
        assert forall|k: int| 0 <= k < v.take(i + 1).len() implies {
            &&& (#[trigger] files@[k]).path@ == v.take(i + 1)[k].path
            &&& files@[k].kind == v.take(i + 1)[k].kind
            &&& files@[k].insertions == count_inserted(v.take(i + 1)[k].ops)
            &&& files@[k].deletions == count_deleted(v.take(i + 1)[k].ops)
        } by {
            if k < i {
                assert(v.take(i + 1)[k] == v.take(i as int)[k]);
            }
        }
        i += 1;
    }
    assert(v.take(diffs.len() as int) == v);
    CommitSummary { added, deleted, modified, files }
}

/// The text of one file's statistics line.
pub open spec fn stat_line(f: FileStat) -> Seq<char> {
    f.path@ + " file: "@ + decimal(f.insertions as nat) + " insertions(+), "@ + decimal(
        f.deletions as nat,
    ) + " deletions(-)\n"@
}

pub open spec fn stat_lines(fs: Seq<FileStat>) -> Seq<char>
    decreases fs.len(),
{
    if fs.len() == 0 {
        Seq::empty()
    } else {
        stat_lines(fs.drop_last()) + stat_line(fs.last())
    }
}

/// The text of a summary: the three counts, then a line per file.
pub open spec fn summary_text(s: CommitSummary) -> Seq<char> {
    decimal(s.added as nat) + " files added\n"@ + decimal(s.deleted as nat) + " files deleted\n"@
        + decimal(s.modified as nat) + " files modified\n"@ + stat_lines(s.files@)
}

impl CommitSummary {
    /// The summary as text.
    pub fn render(&self) -> (r: String)
        ensures
            r@ == summary_text(*self),
    {
        let mut out: Vec<char> = Vec::new();
        push_decimal(&mut out, self.added as u64);
        push_str(&mut out, " files added\n");
        push_decimal(&mut out, self.deleted as u64);
        push_str(&mut out, " files deleted\n");
        push_decimal(&mut out, self.modified as u64);
        push_str(&mut out, " files modified\n");
        let ghost start = out@;
        let mut i: usize = 0;
        while i < self.files.len()
            invariant
                i <= self.files.len(),
                out@ == start + stat_lines(self.files@.take(i as int)),
            decreases self.files.len() - i,
        {
            let f = &self.files[i];
            push_str(&mut out, f.path.as_str());
            push_str(&mut out, " file: ");
            push_decimal(&mut out, f.insertions as u64);
            push_str(&mut out, " insertions(+), ");
            push_decimal(&mut out, f.deletions as u64);
            push_str(&mut out, " deletions(-)\n");
            assert(self.files@.take(i + 1).drop_last() == self.files@.take(i as int));
            i += 1;
        }
        assert(self.files@.take(self.files.len() as int) == self.files@);
        string_of(&out)
    }
}

/// The statistics of commit `commit_hash` against `parent_commit`, as text.
pub fn detailed_print(store: &ObjectStore, commit_hash: &str, parent_commit: &str) -> (r: Result<
    String,
    VcsError,
>)
    ensures
        ({
            let a = commit_records(store@, parent_commit@);
            let b = commit_records(store@, commit_hash@);
            &&& r is Ok <==> (a is Some && b is Some && tree_diff(store@, a->0, b->0) is Some)
            &&& r matches Ok(t) ==> exists|s: CommitSummary|
                #[trigger] summary_text(s) == t@ && s.added == count_kind(
                    tree_diff(store@, a->0, b->0)->0,
                    ChangeKind::Added,
                ) && s.deleted == count_kind(tree_diff(store@, a->0, b->0)->0, ChangeKind::Deleted)
                    && s.modified == count_kind(
                    tree_diff(store@, a->0, b->0)->0,
                    ChangeKind::Modified,
                ) && stats_match(s.files@, tree_diff(store@, a->0, b->0)->0)
        }),
{
    let diffs = diff_between_commits(store, parent_commit, commit_hash)?;
    let s = summarize(&diffs);
    let t = s.render();
    Ok(t)
}

/// The sections found so far in the first `n` lines: a line starting with
/// `@@` closes the current section and opens the next.
pub open spec fn section_scan(ls: Seq<Seq<char>>, n: nat) -> (Seq<Seq<Seq<char>>>, Seq<Seq<char>>)
    decreases n,
{
    if n == 0 || n > ls.len() {
        (Seq::empty(), Seq::empty())
    } else {
        let (done, cur) = section_scan(ls, (n - 1) as nat);
        let line = ls[n - 1];
        if line.len() >= 2 && line[0] == '@' && line[1] == '@' {
            (done.push(cur), seq![line])
        } else {
            (done, cur.push(line))
        }
    }
}

/// The sections of a rendered diff.
pub open spec fn sections_of(text: Seq<char>) -> Seq<Seq<Seq<char>>> {
    let (done, cur) = section_scan(lines_of(text), lines_of(text).len());
    if cur.len() == 0 {
        done
    } else {
        done.push(cur)
    }
}

pub open spec fn section_views(v: Seq<Vec<String>>) -> Seq<Seq<Seq<char>>> {
    Seq::new(v.len(), |i: int| views(v[i]@))
}

/// Splits rendered diff text into sections, each starting at a `@@` line.
pub fn get_sections(diff_output: &str) -> (r: Vec<Vec<String>>)
    ensures
        section_views(r@) == sections_of(diff_output@),
{
    let ls = lines(diff_output);
    let ghost lv = lines_of(diff_output@);
    let mut done: Vec<Vec<String>> = Vec::new();
    let mut cur: Vec<String> = Vec::new();
    let mut i: usize = 0;
    assert(views(cur@) =~= Seq::<Seq<char>>::empty());
    while i < ls.len()
        invariant
            i <= ls.len(),
            views(ls@) == lv,
            lv == lines_of(diff_output@),
            (section_views(done@), views(cur@)) == section_scan(lv, i as nat),
        decreases ls.len() - i,
    {
        let line = ls[i].clone();
        assert(line@ == lv[i as int]);
        let cs = crate::text::chars_of(line.as_str());
        if cs.len() >= 2 && cs[0] == '@' && cs[1] == '@' {
            let finished = cur;
            done.push(finished);
            cur = Vec::new();
            cur.push(line);
            assert(section_views(done@) =~= section_scan(lv, (i + 1) as nat).0);
            assert(views(cur@) =~= section_scan(lv, (i + 1) as nat).1);
        } else {
            cur.push(line);
            assert(views(cur@) =~= section_scan(lv, (i + 1) as nat).1);
        }
        i += 1;
    }
    if cur.len() > 0 {
        done.push(cur);
    }
    assert(section_views(done@) =~= sections_of(diff_output@));
    done
}

} // verus!
