//! Blobs, trees and commits: the content-addressed objects of a repository.
use vstd::prelude::*;
use vstd::string::StringExecFns;
use vstd::utf8::{encode_utf8, encode_utf8_decode_utf8, encode_utf8_valid_utf8};
use crate::compression::zlib_of;
use crate::error::VcsError;
use crate::hashing::{calculate_hash, is_object_id, sha1_hex};
use crate::index::{index_text, Index};
use crate::store::{object_bytes, object_text, ObjectStore};
use crate::text::{
    is_line_safe, join_lines, lemma_join_lines, lemma_lines_concat, lemma_line_scan_concat,
    lemma_single_line, line_scan, bytes_of, concat_bytes, decimal, is_blank, is_blank_str, lines, lines_of, push_decimal,
    push_str, string_of, strip_prefix, views,
};

verus! {

broadcast use vstd::string::group_string_axioms;

/// A file's content and its identity.
pub struct Blob {
    pub id: String,
    pub content: Vec<u8>,
}

impl Blob {
    pub fn new(file_content: Vec<u8>) -> (r: Blob)
        ensures
            r.id@ == sha1_hex(file_content@),
            is_object_id(r.id@),
            r.content@ == file_content@,
    {
        let id = calculate_hash(file_content.as_slice());
        Blob { id, content: file_content }
    }

    pub fn get_hash(self) -> (r: String)
        ensures
            r == self.id,
    {
        self.id
    }

    /// Stores the content under the blob's identity.
    pub fn create_blob(&self, store: &mut ObjectStore)
        ensures
            final(store)@ == old(store)@.insert(self.id@, zlib_of(self.content@)),
            object_bytes(final(store)@, self.id@) == Some(self.content@),
    {
        store.put_object(self.id.as_str(), self.content.as_slice())
    }
}

/// The header hashed in front of a tree's bytes: `tree<length>` and a NUL.
pub open spec fn tree_header(len: nat) -> Seq<char> {
    seq!['t', 'r', 'e', 'e'] + decimal(len) + seq!['\0']
}

/// The identity of the tree whose stored text is `text`.
pub open spec fn tree_id(text: Seq<char>) -> Seq<char> {
    sha1_hex(encode_utf8(tree_header(encode_utf8(text).len())) + encode_utf8(text))
}

/// A snapshot of the whole index, known by its identity.
pub struct Tree {
    pub id: String,
}

impl Tree {
    /// The tree of an index file whose text is `index_content`.
    pub fn new(index_content: &str) -> (r: Tree)
        ensures
            r.id@ == tree_id(index_content@),
            is_object_id(r.id@),
    {
        let body = bytes_of(index_content);
        let mut header: Vec<char> = Vec::new();
        header.push('t');
        header.push('r');
        header.push('e');
        header.push('e');
        push_decimal(&mut header, body.len() as u64);
        header.push('\0');
        assert(header@ == tree_header(encode_utf8(index_content@).len()));
        let header_text = string_of(&header);
        let head_bytes = bytes_of(header_text.as_str());
        let all = concat_bytes(head_bytes.as_slice(), body.as_slice());
        Tree { id: calculate_hash(all.as_slice()) }
    }

    /// The text of the index file that `index` describes.
    pub fn get_index_content(index: &Index) -> (r: String)
        ensures
            r@ == index_text(index@),
    {
        index.content()
    }

    /// The tree of the index file that `index` describes.
    pub fn new_tree_from_index(index: &Index) -> (r: Tree)
        ensures
            r.id@ == tree_id(index_text(index@)),
            is_object_id(r.id@),
    {
        let text = Self::get_index_content(index);
        Self::new(text.as_str())
    }

    /// Stores `index_content` under this tree's identity.
    pub fn create_tree(&self, store: &mut ObjectStore, index_content: &str)
        ensures
            final(store)@ == old(store)@.insert(
                self.id@,
                zlib_of(encode_utf8(index_content@)),
            ),
            object_bytes(final(store)@, self.id@) == Some(encode_utf8(index_content@)),
            object_text(final(store)@, self.id@) == Some(index_content@),
    {
        let body = bytes_of(index_content);
        proof {
            encode_utf8_valid_utf8(index_content@);
            encode_utf8_decode_utf8(index_content@);
        }
        store.put_object(self.id.as_str(), body.as_slice())
    }

    /// Stores the text of `index` under this tree's identity.
    pub fn create_tree_from_index(&self, store: &mut ObjectStore, index: &Index)
        ensures
            final(store)@ == old(store)@.insert(
                self.id@,
                zlib_of(encode_utf8(index_text(index@))),
            ),
            object_bytes(final(store)@, self.id@) == Some(
                encode_utf8(index_text(index@)),
            ),
            object_text(final(store)@, self.id@) == Some(index_text(index@)),
    {
        let text = Self::get_index_content(index);
        self.create_tree(store, text.as_str())
    }
}

/// The `parent <id>` lines of a commit text.
pub open spec fn parents_text(ps: Seq<Seq<char>>) -> Seq<char>
    decreases ps.len(),
{
    if ps.len() == 0 {
        Seq::empty()
    } else {
        parents_text(ps.drop_last()) + seq!['p', 'a', 'r', 'e', 'n', 't', ' '] + ps.last()
            + seq!['\n']
    }
}

/// The text of a commit: `tree <id>`, a `parent <id>` line per parent, a
/// blank line and the message, each line ended by a line feed.
pub open spec fn commit_text(tree: Seq<char>, parents: Seq<Seq<char>>, message: Seq<char>) -> Seq<
    char,
> {
    seq!['t', 'r', 'e', 'e', ' '] + tree + seq!['\n'] + parents_text(parents) + seq!['\n']
        + message + seq!['\n']
}

/// The fields read so far from the lines of a commit text.
pub struct CommitScan {
    pub tree: Seq<char>,
    pub parents: Seq<Seq<char>>,
    pub message: Seq<char>,
    pub in_message: bool,
    pub bad: bool,
}

pub open spec fn tree_prefix() -> Seq<char> {
    seq!['t', 'r', 'e', 'e', ' ']
}

pub open spec fn parent_prefix() -> Seq<char> {
    seq!['p', 'a', 'r', 'e', 'n', 't', ' ']
}

pub open spec fn has_prefix(s: Seq<char>, p: Seq<char>) -> bool {
    p.len() <= s.len() && s.take(p.len() as int) == p
}

/// Reading one more line of a commit text. Once the blank line is seen,
/// every line belongs to the message, joined by line feeds; an empty line
/// before any message text adds nothing.
pub open spec fn commit_step(st: CommitScan, line: Seq<char>) -> CommitScan {
    if st.bad {
        st
    } else if st.in_message {
        CommitScan {
            message: if st.message.len() == 0 {
                line
            } else {
                st.message + seq!['\n'] + line
            },
            ..st
        }
    } else if has_prefix(line, tree_prefix()) {
        CommitScan { tree: line.skip(5), ..st }
    } else if has_prefix(line, parent_prefix()) {
        CommitScan { parents: st.parents.push(line.skip(7)), ..st }
    } else if is_blank(line) {
        CommitScan { in_message: true, ..st }
    } else {
        CommitScan { bad: true, ..st }
    }
}

pub open spec fn commit_scan(ls: Seq<Seq<char>>) -> CommitScan
    decreases ls.len(),
{
    if ls.len() == 0 {
        CommitScan {
            tree: Seq::empty(),
            parents: Seq::empty(),
            message: Seq::empty(),
            in_message: false,
            bad: false,
        }
    } else {
        commit_step(commit_scan(ls.drop_last()), ls.last())
    }
}

/// The tree, parents and message that a commit text gives: every line
/// before the blank one is a `tree` or `parent` line, and both the tree and
/// the message are present.
pub open spec fn parse_commit(text: Seq<char>) -> Option<(Seq<char>, Seq<Seq<char>>, Seq<char>)> {
    let st = commit_scan(lines_of(text));
    if st.bad || st.tree.len() == 0 || st.message.len() == 0 {
        None
    } else {
        Some((st.tree, st.parents, st.message))
    }
}

/// The fields of a commit.
pub struct CommitContent {
    pub tree: String,
    pub parents: Vec<String>,
    pub message: String,
}

proof fn lemma_scan_bad_sticks(ls: Seq<Seq<char>>, i: int)
    requires
        0 <= i <= ls.len(),
        commit_scan(ls.take(i)).bad,
    ensures
        commit_scan(ls).bad,
    decreases ls.len() - i,
{
    if i < ls.len() {
        assert(ls.take(i + 1).drop_last() == ls.take(i));
        lemma_scan_bad_sticks(ls, i + 1);
    } else {
        assert(ls.take(i) == ls);
    }
}

impl CommitContent {
    pub fn new(tree: String, parents: Vec<String>, message: String) -> (r: CommitContent)
        ensures
            r.tree == tree,
            r.parents == parents,
            r.message == message,
    {
        CommitContent { tree, parents, message }
    }

    /// The commit's text.
    pub fn pretty_print(&self) -> (r: String)
        ensures
            r@ == commit_text(self.tree@, views(self.parents@), self.message@),
    {
        let mut out: Vec<char> = Vec::new();
        push_str(&mut out, "tree ");
        proof {
            reveal_strlit("tree ");
        }
        push_str(&mut out, self.tree.as_str());
        out.push('\n');
        let ghost start = out@;
        let mut i: usize = 0;
        while i < self.parents.len()
            invariant
                i <= self.parents.len(),
                out@ == start + parents_text(views(self.parents@).take(i as int)),
            decreases self.parents.len() - i,
        {
            push_str(&mut out, "parent ");
            proof {
                reveal_strlit("parent ");
            }
            push_str(&mut out, self.parents[i].as_str());
            out.push('\n');
            assert(views(self.parents@).take(i + 1).drop_last() == views(self.parents@).take(
                i as int,
            ));
            i += 1;
        }
        assert(views(self.parents@).take(self.parents.len() as int) == views(self.parents@));
        out.push('\n');
        push_str(&mut out, self.message.as_str());
        out.push('\n');
        string_of(&out)
    }

    /// Reads a commit back from its text.
    pub fn from_pretty_print(content: &str) -> (r: Result<CommitContent, VcsError>)
        ensures
            r is Ok <==> parse_commit(content@) is Some,
            r matches Ok(c) ==> parse_commit(content@) == Some(
                (c.tree@, views(c.parents@), c.message@),
            ),
            r matches Err(e) ==> e is Malformed,
    {
        let ls = lines(content);
        let ghost lv = lines_of(content@);
        let mut tree = String::new();
        let mut parents: Vec<String> = Vec::new();
        let mut message = String::new();
        let mut in_message = false;
        let mut i: usize = 0;
        assert(views(parents@) =~= Seq::<Seq<char>>::empty());
        assert(lv.take(0) =~= Seq::<Seq<char>>::empty());
        while i < ls.len()
            invariant
                i <= ls.len(),
                views(ls@) == lv,
                lv == lines_of(content@),
                commit_scan(lv.take(i as int)) == (CommitScan {
                    tree: tree@,
                    parents: views(parents@),
                    message: message@,
                    in_message,
                    bad: false,
                }),
            decreases ls.len() - i,
        {
            proof {
                reveal_strlit("tree ");
                reveal_strlit("parent ");
                assert("tree "@ == tree_prefix());
                assert("parent "@ == parent_prefix());
            }
            assert(lv.take(i + 1).drop_last() == lv.take(i as int));
            let line = ls[i].as_str();
            assert(line@ == lv[i as int]);
            if in_message {
                if !message.as_str().is_empty() {
                    message.append("\n");
                    proof {
                        reveal_strlit("\n");
                        assert("\n"@ == seq!['\n']);
                    }
                }
                message.append(line);
            } else {
                match strip_prefix(line, "tree ") {
                    Some(t) => {
                        assert(has_prefix(line@, tree_prefix()));
                        tree = t;
                    },
                    None => match strip_prefix(line, "parent ") {
                        Some(p) => {
                            parents.push(p);
                            assert(views(parents@) =~= commit_scan(lv.take(i + 1)).parents);
                        },
                        None => {
                            if is_blank_str(line) {
                                assert(!has_prefix(line@, tree_prefix()));
                                assert(!has_prefix(line@, parent_prefix()));
                                in_message = true;
                            } else {
                                proof {
                                    lemma_scan_bad_sticks(lv, i + 1);
                                }
                                return Err(VcsError::Malformed(line.to_string()));
                            }
                        },
                    },
                }
            }
            i += 1;
        }
        assert(lv.take(ls.len() as int) == lv);
        if tree.as_str().is_empty() {
            return Err(VcsError::Malformed(content.to_string()));
        }
        if message.as_str().is_empty() {
            return Err(VcsError::Malformed(content.to_string()));
        }
        Ok(CommitContent { tree, parents, message })
    }
}

/// A commit and its identity: the digest of its text.
pub struct Commit {
    pub id: String,
    pub content: CommitContent,
}

impl Commit {
    pub fn new(tree: String, parents: Vec<String>, message: String) -> (r: Commit)
        ensures
            r.content.tree == tree,
            r.content.parents == parents,
            r.content.message == message,
            r.id@ == sha1_hex(encode_utf8(commit_text(tree@, views(parents@), message@))),
            is_object_id(r.id@),
    {
        let content = CommitContent::new(tree, parents, message);
        let text = content.pretty_print();
        let bytes = bytes_of(text.as_str());
        let id = calculate_hash(bytes.as_slice());
        Commit { id, content }
    }

    /// Stores the commit's text under its identity.
    pub fn create_commit(&self, store: &mut ObjectStore)
        ensures
            final(store)@ == old(store)@.insert(
                self.id@,
                zlib_of(
                    encode_utf8(
                        commit_text(
                            self.content.tree@,
                            views(self.content.parents@),
                            self.content.message@,
                        ),
                    ),
                ),
            ),
            object_text(final(store)@, self.id@) == Some(
                commit_text(self.content.tree@, views(self.content.parents@), self.content.message@),
            ),
    {
        let text = self.content.pretty_print();
        proof {
            encode_utf8_valid_utf8(text@);
            encode_utf8_decode_utf8(text@);
        }
        let bytes = bytes_of(text.as_str());
        store.put_object(self.id.as_str(), bytes.as_slice())
    }
}

/// Reading the lines `q` on from the state `st`.
pub open spec fn commit_fold(st: CommitScan, q: Seq<Seq<char>>) -> CommitScan
    decreases q.len(),
{
    if q.len() == 0 {
        st
    } else {
        commit_step(commit_fold(st, q.drop_last()), q.last())
    }
}

proof fn lemma_fold_concat(st: CommitScan, p: Seq<Seq<char>>, q: Seq<Seq<char>>)
    ensures
        commit_fold(st, p + q) == commit_fold(commit_fold(st, p), q),
    decreases q.len(),
{
    if q.len() == 0 {
        assert(p + q == p);
    } else {
        lemma_fold_concat(st, p, q.drop_last());
        assert((p + q).drop_last() == p + q.drop_last());
    }
}

proof fn lemma_scan_is_fold(ls: Seq<Seq<char>>)
    ensures
        commit_scan(ls) == commit_fold(commit_scan(Seq::empty()), ls),
    decreases ls.len(),
{
    if ls.len() > 0 {
        lemma_scan_is_fold(ls.drop_last());
    }
}

proof fn lemma_join_nonempty(q: Seq<Seq<char>>)
    requires
        q.len() > 0,
        q[0].len() > 0,
    ensures
        join_lines(q).len() > 0,
    decreases q.len(),
{
    if q.len() > 1 {
        lemma_join_nonempty(q.drop_last());
    }
}

proof fn lemma_message_fold(st: CommitScan, q: Seq<Seq<char>>)
    requires
        st.in_message,
        !st.bad,
        st.message.len() == 0,
        q.len() > 0,
        q[0].len() > 0,
    ensures
        commit_fold(st, q) == (CommitScan { message: join_lines(q), ..st }),
    decreases q.len(),
{
    if q.len() == 1 {
        assert(q.drop_last() == Seq::<Seq<char>>::empty());
        assert(commit_fold(st, q.drop_last()) == st);
        assert(q.last() == q[0]);
        assert(join_lines(q) == q[0]);
    } else {
        let d = q.drop_last();
        assert(d[0] == q[0]);
        lemma_message_fold(st, d);
        lemma_join_nonempty(d);
        let prev = commit_fold(st, d);
        assert(prev.message == join_lines(d));
        assert(prev.in_message && !prev.bad);
        assert(join_lines(q) == join_lines(d) + seq!['\n'] + q.last());
    }
}

/// The line of a parent.
pub open spec fn parent_line(p: Seq<char>) -> Seq<char> {
    parent_prefix() + p
}

proof fn lemma_parents_lines(ps: Seq<Seq<char>>)
    requires
        forall|i: int| 0 <= i < ps.len() ==> is_line_safe(#[trigger] ps[i]),
    ensures
        lines_of(parents_text(ps)) == Seq::new(ps.len(), |i: int| parent_line(ps[i])),
        line_scan(parents_text(ps), parents_text(ps).len()).1.len() == 0,
    decreases ps.len(),
{
    if ps.len() == 0 {
        assert(lines_of(parents_text(ps)) =~= Seq::new(ps.len(), |i: int| parent_line(ps[i])));
    } else {
        let d = ps.drop_last();
        assert forall|i: int| 0 <= i < d.len() implies is_line_safe(#[trigger] d[i]) by {
            assert(d[i] == ps[i]);
        }
        lemma_parents_lines(d);
        let l = parent_line(ps.last());
        assert(is_line_safe(l)) by {
            assert forall|i: int| 0 <= i < l.len() implies #[trigger] l[i] != '\n' && l[i] != '\r' by {
                if i >= 7 {
                    assert(l[i] == ps.last()[i - 7]);
                }
            }
        }
        lemma_single_line(l);
        let a = parents_text(d);
        let b = l + seq!['\n'];
        assert(parents_text(ps) == a + b);
        lemma_lines_concat(a, b);
        lemma_line_scan_concat(a, b, b.len());
        assert(lines_of(parents_text(ps)) =~= Seq::new(ps.len(), |i: int| parent_line(ps[i])));
    }
}

proof fn lemma_parents_fold(st: CommitScan, ps: Seq<Seq<char>>)
    requires
        !st.in_message,
        !st.bad,
    ensures
        commit_fold(st, Seq::new(ps.len(), |i: int| parent_line(ps[i]))) == (CommitScan {
            parents: st.parents + ps,
            ..st
        }),
    decreases ps.len(),
{
    let ls = Seq::new(ps.len(), |i: int| parent_line(ps[i]));
    if ps.len() == 0 {
        assert(st.parents + ps =~= st.parents);
    } else {
        let d = ps.drop_last();
        lemma_parents_fold(st, d);
        assert(ls.drop_last() =~= Seq::new(d.len(), |i: int| parent_line(d[i])));
        let l = ls.last();
        assert(l == parent_prefix() + ps.last());
        assert(!has_prefix(l, tree_prefix())) by {
            if has_prefix(l, tree_prefix()) {
                assert(l.take(5)[0] == tree_prefix()[0]);
            }
        }
        assert(l.take(7) =~= parent_prefix());
        assert(l.skip(7) =~= ps.last());
        assert((st.parents + d).push(ps.last()) =~= st.parents + ps);
    }
}

/// A commit's text reads back as the commit: where the tree is a non-empty
/// line, each parent a line, and the message non-empty, free of carriage
/// returns and not starting with a line feed.
pub proof fn lemma_commit_round_trip(tree: Seq<char>, parents: Seq<Seq<char>>, message: Seq<char>)
    requires
        tree.len() > 0,
        is_line_safe(tree),
        forall|i: int| 0 <= i < parents.len() ==> is_line_safe(#[trigger] parents[i]),
        message.len() > 0,
        message[0] != '\n',
        forall|i: int| 0 <= i < message.len() ==> #[trigger] message[i] != '\r',
    ensures
        parse_commit(commit_text(tree, parents, message)) == Some((tree, parents, message)),
{
    let tl = tree_prefix() + tree;
    assert(is_line_safe(tl)) by {
        assert forall|i: int| 0 <= i < tl.len() implies #[trigger] tl[i] != '\n' && tl[i] != '\r' by {
            if i >= 5 {
                assert(tl[i] == tree[i - 5]);
            }
        }
    }
    let a = tl + seq!['\n'];
    let b = parents_text(parents);
    let nl = seq!['\n'];
    let mm = message + seq!['\n'];
    let c = nl + mm;
    assert(commit_text(tree, parents, message) == a + (b + c));
    lemma_single_line(tl);
    lemma_parents_lines(parents);
    lemma_single_line(Seq::<char>::empty());
    assert(Seq::<char>::empty() + seq!['\n'] == nl);
    lemma_lines_concat(nl, mm);
    lemma_lines_concat(b, c);
    lemma_lines_concat(a, b + c);
    lemma_join_lines(message);
    let q = lines_of(mm);
    let pl = Seq::new(parents.len(), |i: int| parent_line(parents[i]));
    assert(lines_of(commit_text(tree, parents, message)) == seq![tl] + (pl + (seq![
        Seq::<char>::empty(),
    ] + q)));
    let init = commit_scan(Seq::<Seq<char>>::empty());
    lemma_scan_is_fold(lines_of(commit_text(tree, parents, message)));
    lemma_fold_concat(init, seq![tl], pl + (seq![Seq::<char>::empty()] + q));
    lemma_fold_concat(commit_fold(init, seq![tl]), pl, seq![Seq::<char>::empty()] + q);
    assert(seq![tl].drop_last() == Seq::<Seq<char>>::empty());
    assert(tl.take(5) =~= tree_prefix());
    assert(tl.skip(5) =~= tree);
    let s1 = commit_fold(init, seq![tl]);
    assert(commit_fold(init, seq![tl].drop_last()) == init);
    assert(seq![tl].last() == tl);
    assert(!init.bad && !init.in_message);
    assert(has_prefix(tl, tree_prefix()));
    assert(s1 == commit_step(init, tl));
    assert(s1 == CommitScan { tree, ..init });
    lemma_parents_fold(s1, parents);
    let s2 = commit_fold(s1, pl);
    assert(Seq::<Seq<char>>::empty() + parents =~= parents);
    lemma_fold_concat(s2, seq![Seq::<char>::empty()], q);
    assert(seq![Seq::<char>::empty()].drop_last() == Seq::<Seq<char>>::empty());
    let s3 = commit_fold(s2, seq![Seq::<char>::empty()]);
    let e = Seq::<char>::empty();
    assert(commit_fold(s2, seq![e].drop_last()) == s2);
    assert(seq![e].last() == e);
    assert(!s2.bad && !s2.in_message);
    assert(!has_prefix(e, tree_prefix()));
    assert(!has_prefix(e, parent_prefix()));
    assert(is_blank(e));
    assert(s3 == commit_step(s2, e));
    assert(s3 == CommitScan { in_message: true, ..s2 });
    lemma_message_fold(s3, q);
}

} // verus!
