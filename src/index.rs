//! The staging area: one metadata record per tracked path, in order.
use vstd::prelude::*;
use crate::error::VcsError;
use crate::text::{
    is_word, lemma_decimal_round_trip, lemma_line_scan_push, lemma_words_push, lemma_words_single,
    line_scan, strip_cr, decimal, lines, lines_of, parse_decimal, parse_u64, push_decimal, push_str,
    string_of, views, words, words_of,
};

verus! {

/// File metadata as the file system reports it, in seconds and bytes.
#[derive(Debug, Clone, Copy, PartialEq, Eq)]
pub struct FileMeta {
    pub ctime: u64,
    pub mtime: u64,
    pub size: u64,
    pub permissions: u32,
}

/// One tracked object: its kind, content hash, times, path, size and mode.
#[derive(Debug, Clone)]
pub struct ObjectInfo {
    pub obj_type: String,
    pub hash: String,
    pub ctime: u64,
    pub mtime: u64,
    pub path: String,
    pub size: u64,
    pub permissions: u32,
}

/// The mathematical value of an [`ObjectInfo`].
pub struct InfoView {
    pub obj_type: Seq<char>,
    pub hash: Seq<char>,
    pub ctime: u64,
    pub mtime: u64,
    pub path: Seq<char>,
    pub size: u64,
    pub permissions: u32,
}

impl View for ObjectInfo {
    type V = InfoView;

    open spec fn view(&self) -> InfoView {
        InfoView {
            obj_type: self.obj_type@,
            hash: self.hash@,
            ctime: self.ctime,
            mtime: self.mtime,
            path: self.path@,
            size: self.size,
            permissions: self.permissions,
        }
    }
}

/// The index line of a record:
/// `<permissions> <hash> <type> <path> <size> <ctime> <mtime>`.
pub open spec fn info_line(v: InfoView) -> Seq<char> {
    decimal(v.permissions as nat) + seq![' '] + v.hash + seq![' '] + v.obj_type + seq![' ']
        + v.path + seq![' '] + decimal(v.size as nat) + seq![' '] + decimal(v.ctime as nat)
        + seq![' '] + decimal(v.mtime as nat)
}

/// The record that an index line describes: at least seven words, of which
/// the first and the last three are numbers that fit their fields.
pub open spec fn parse_info(line: Seq<char>) -> Option<InfoView> {
    let w = words_of(line);
    if w.len() < 7 {
        None
    } else {
        let perm = parse_decimal(w[0], u32::MAX as nat);
        let size = parse_decimal(w[4], u64::MAX as nat);
        let ctime = parse_decimal(w[5], u64::MAX as nat);
        let mtime = parse_decimal(w[6], u64::MAX as nat);
        if perm is Some && size is Some && ctime is Some && mtime is Some {
            Some(
                InfoView {
                    obj_type: w[2],
                    hash: w[1],
                    ctime: ctime->0 as u64,
                    mtime: mtime->0 as u64,
                    path: w[3],
                    size: size->0 as u64,
                    permissions: perm->0 as u32,
                },
            )
        } else {
            None
        }
    }
}

impl ObjectInfo {
    /// A record for the object `hash` of kind `object_type` at `path`, with
    /// the file's metadata.
    pub fn new(object_type: &str, path: &str, hash: &str, meta: &FileMeta) -> (r: ObjectInfo)
        ensures
            r@ == (InfoView {
                obj_type: object_type@,
                hash: hash@,
                ctime: meta.ctime,
                mtime: meta.mtime,
                path: path@,
                size: meta.size,
                permissions: meta.permissions,
            }),
    {
        ObjectInfo {
            obj_type: object_type.to_string(),
            hash: hash.to_string(),
            ctime: meta.ctime,
            mtime: meta.mtime,
            path: path.to_string(),
            size: meta.size,
            permissions: meta.permissions,
        }
    }

    /// A copy of this record.
    pub fn duplicate(&self) -> (r: ObjectInfo)
        ensures
            r@ == self@,
    {
        ObjectInfo {
            obj_type: self.obj_type.clone(),
            hash: self.hash.clone(),
            ctime: self.ctime,
            mtime: self.mtime,
            path: self.path.clone(),
            size: self.size,
            permissions: self.permissions,
        }
    }

    /// The record's index line.
    pub fn pretty_print(&self) -> (r: String)
        ensures
            r@ == info_line(self@),
    {
        let mut out: Vec<char> = Vec::new();
        push_decimal(&mut out, self.permissions as u64);
        out.push(' ');
        push_str(&mut out, self.hash.as_str());
        out.push(' ');
        push_str(&mut out, self.obj_type.as_str());
        out.push(' ');
        push_str(&mut out, self.path.as_str());
        out.push(' ');
        push_decimal(&mut out, self.size);
        out.push(' ');
        push_decimal(&mut out, self.ctime);
        out.push(' ');
        push_decimal(&mut out, self.mtime);
        string_of(&out)
    }

    /// Reads a record back from its index line.
    pub fn from_pretty_print(line: &str) -> (r: Result<ObjectInfo, VcsError>)
        ensures
            r is Ok <==> parse_info(line@) is Some,
            r matches Ok(o) ==> o@ == parse_info(line@)->0,
            r matches Err(e) ==> e is Malformed,
    {
        let w = words(line);
        if w.len() < 7 {
            return Err(VcsError::Malformed(line.to_string()));
        }
        assert(w[0]@ == words_of(line@)[0]);
        let perm = parse_u64(w[0].as_str(), 4294967295u64);
        let size = parse_u64(w[4].as_str(), 18446744073709551615u64);
        let ctime = parse_u64(w[5].as_str(), 18446744073709551615u64);
        let mtime = parse_u64(w[6].as_str(), 18446744073709551615u64);
        match (perm, size, ctime, mtime) {
            (Some(p), Some(sz), Some(c), Some(m)) => {
                assert(w[1]@ == words_of(line@)[1]);
                assert(w[2]@ == words_of(line@)[2]);
                assert(w[3]@ == words_of(line@)[3]);
                assert(w[4]@ == words_of(line@)[4]);
                assert(w[5]@ == words_of(line@)[5]);
                assert(w[6]@ == words_of(line@)[6]);
                Ok(
                    ObjectInfo {
                        obj_type: w[2].clone(),
                        hash: w[1].clone(),
                        ctime: c,
                        mtime: m,
                        path: w[3].clone(),
                        size: sz,
                        permissions: p as u32,
                    },
                )
            },
            _ => {
                assert(w[4]@ == words_of(line@)[4]);
                assert(w[5]@ == words_of(line@)[5]);
                assert(w[6]@ == words_of(line@)[6]);
                Err(VcsError::Malformed(line.to_string()))
            },
        }
    }
}

/// The staging area: the records that the next commit will capture.
#[derive(Debug, Clone)]
pub struct Index {
    pub obj: Vec<ObjectInfo>,
}

/// What staging a record does to the index.
#[derive(Debug, Clone, Copy, PartialEq, Eq)]
pub enum StageAction {
    /// An entry with the same path, times and hash is already there.
    NoChange,
    /// No entry has the path: the record is appended.
    Insert,
    /// The entry at this position has the path but differs: it is removed
    /// and the record appended.
    ReplaceAt(usize),
}

/// The views of a sequence of records.
pub open spec fn info_views(v: Seq<ObjectInfo>) -> Seq<InfoView> {
    Seq::new(v.len(), |i: int| v[i]@)
}

impl View for Index {
    type V = Seq<InfoView>;

    open spec fn view(&self) -> Seq<InfoView> {
        info_views(self.obj@)
    }
}

/// No two entries share a path.
pub open spec fn unique_paths(s: Seq<InfoView>) -> bool {
    forall|i: int, j: int| 0 <= i < j < s.len() ==> s[i].path != s[j].path
}

/// Entry `i` is the first one with path `p`.
pub open spec fn first_with_path(s: Seq<InfoView>, p: Seq<char>, i: int) -> bool {
    0 <= i < s.len() && s[i].path == p && forall|j: int| 0 <= j < i ==> s[j].path != p
}

/// Two records agree on what staging compares: times and content hash.
pub open spec fn same_state(a: InfoView, b: InfoView) -> bool {
    a.ctime == b.ctime && a.mtime == b.mtime && a.hash == b.hash
}

/// The outcome of staging `o` into `s`.
pub open spec fn stage_action(s: Seq<InfoView>, o: InfoView) -> StageAction {
    if exists|i: int| first_with_path(s, o.path, i) {
        let i = choose|i: int| first_with_path(s, o.path, i);
        if same_state(s[i], o) {
            StageAction::NoChange
        } else {
            StageAction::ReplaceAt(i as usize)
        }
    } else {
        StageAction::Insert
    }
}

/// The index after staging `o` into `s`.
pub open spec fn staged(s: Seq<InfoView>, o: InfoView) -> Seq<InfoView> {
    if exists|i: int| first_with_path(s, o.path, i) {
        let i = choose|i: int| first_with_path(s, o.path, i);
        if same_state(s[i], o) {
            s
        } else {
            s.remove(i).push(o)
        }
    } else {
        s.push(o)
    }
}

/// The text of an index file: each record's line, ended by a line feed.
pub open spec fn index_text(s: Seq<InfoView>) -> Seq<char>
    decreases s.len(),
{
    if s.len() == 0 {
        Seq::empty()
    } else {
        index_text(s.drop_last()) + info_line(s.last()) + seq!['\n']
    }
}

/// The records that lines describe, if every line describes one.
pub open spec fn parse_info_lines(ls: Seq<Seq<char>>) -> Option<Seq<InfoView>>
    decreases ls.len(),
{
    if ls.len() == 0 {
        Some(Seq::empty())
    } else {
        match (parse_info_lines(ls.drop_last()), parse_info(ls.last())) {
            (Some(s), Some(o)) => Some(s.push(o)),
            _ => None,
        }
    }
}

/// The records that an index text describes.
pub open spec fn parse_index(text: Seq<char>) -> Option<Seq<InfoView>> {
    parse_info_lines(lines_of(text))
}

/// The entries of `s` whose path is not in `gone`.
pub open spec fn without_paths(s: Seq<InfoView>, gone: Seq<Seq<char>>) -> Seq<InfoView>
    decreases s.len(),
{
    if s.len() == 0 {
        Seq::empty()
    } else if gone.contains(s.last().path) {
        without_paths(s.drop_last(), gone)
    } else {
        without_paths(s.drop_last(), gone).push(s.last())
    }
}

proof fn lemma_first_unique(s: Seq<InfoView>, p: Seq<char>, i: int, j: int)
    requires
        first_with_path(s, p, i),
        first_with_path(s, p, j),
    ensures
        i == j,
{
    if i < j {
        assert(s[i].path == p);
    } else if j < i {
        assert(s[j].path == p);
    }
}

impl Index {
    pub fn new() -> (r: Index)
        ensures
            r@ == Seq::<InfoView>::empty(),
    {
        Index { obj: Vec::new() }
    }

    pub fn add_object(&mut self, object: ObjectInfo)
        ensures
            final(self)@ == old(self)@.push(object@),
    {
        self.obj.push(object);
        assert(final(self)@ =~= old(self)@.push(object@));
    }

    /// The text of the index file for these records.
    pub fn content(&self) -> (r: String)
        ensures
            r@ == index_text(self@),
    {
        let mut out: Vec<char> = Vec::new();
        let mut i: usize = 0;
        while i < self.obj.len()
            invariant
                i <= self.obj.len(),
                out@ == index_text(self@.take(i as int)),
            decreases self.obj.len() - i,
        {
            let line = self.obj[i].pretty_print();
            push_str(&mut out, line.as_str());
            out.push('\n');
            assert(self@.take(i + 1).drop_last() == self@.take(i as int));
            i += 1;
        }
        assert(self@.take(self.obj.len() as int) == self@);
        string_of(&out)
    }

    /// Reads an index back from its text.
    pub fn parse(text: &str) -> (r: Result<Index, VcsError>)
        ensures
            r is Ok <==> parse_index(text@) is Some,
            r matches Ok(idx) ==> idx@ == parse_index(text@)->0,
            r matches Err(e) ==> e is Malformed,
    {
        let ls = lines(text);
        let ghost lv = lines_of(text@);
        let mut idx = Index::new();
        let mut i: usize = 0;
        while i < ls.len()
            invariant
                i <= ls.len(),
                views(ls@) == lv,
                lv == lines_of(text@),
                parse_info_lines(lv.take(i as int)) == Some(idx@),
            decreases ls.len() - i,
        {
            assert(lv.take(i + 1).drop_last() == lv.take(i as int));
            assert(ls[i as int]@ == lv[i as int]);
            match ObjectInfo::from_pretty_print(ls[i].as_str()) {
                Ok(o) => idx.add_object(o),
                Err(e) => {
                    proof {
                        lemma_parse_lines_fails_later(lv, i as int);
                    }
                    return Err(e);
                },
            }
            i += 1;
        }
        assert(lv.take(ls.len() as int) == lv);
        Ok(idx)
    }

    /// Stages `obj`: nothing when it is already there unchanged, else its
    /// record goes to the end and any earlier record of its path leaves.
    pub fn stage(&mut self, obj: ObjectInfo) -> (r: StageAction)
        ensures
            r == stage_action(old(self)@, obj@),
            final(self)@ == staged(old(self)@, obj@),
    {
        let action = verifcation(self, &obj);
        match action {
            StageAction::NoChange => {},
            StageAction::Insert => {
                self.add_object(obj);
            },
            StageAction::ReplaceAt(i) => {
                proof {
                    assert(exists|k: int| first_with_path(old(self)@, obj@.path, k));
                    let k = choose|k: int| first_with_path(old(self)@, obj@.path, k);
                    assert(0 <= k < old(self).obj.len());
                    assert(k as usize as int == k);
                    assert(stage_action(old(self)@, obj@) == StageAction::ReplaceAt(k as usize));
                    assert(i as int == k);
                }
                self.obj.remove(i);
                assert(self@ =~= old(self)@.remove(i as int));
                self.add_object(obj);
            },
        }
        action
    }

    /// Removes the entries whose path is in `deleted_files`.
    pub fn clean_index(&mut self, deleted_files: &Vec<String>)
        ensures
            final(self)@ == without_paths(old(self)@, views(deleted_files@)),
    {
        let ghost gone = views(deleted_files@);
        let mut kept: Vec<ObjectInfo> = Vec::new();
        let mut i: usize = 0;
        while i < self.obj.len()
            invariant
                i <= self.obj.len(),
                gone == views(deleted_files@),
                info_views(kept@) == without_paths(self@.take(i as int), gone),
            decreases self.obj.len() - i,
        {
            assert(self@.take(i + 1).drop_last() == self@.take(i as int));
            let e = &self.obj[i];
            let mut found = false;
            let mut j: usize = 0;
            while j < deleted_files.len()
                invariant
                    j <= deleted_files.len(),
                    gone == views(deleted_files@),
                    found <==> exists|k: int| 0 <= k < j && gone[k] == e.path@,
                decreases deleted_files.len() - j,
            {
                assert(gone[j as int] == deleted_files[j as int]@);
                if deleted_files[j] == e.path {
                    found = true;
                }
                j += 1;
            }
            assert(found <==> gone.contains(e.path@));
            if !found {
                kept.push(e.duplicate());
                assert(info_views(kept@) =~= without_paths(self@.take(i as int), gone).push(
                    self@[i as int],
                ));
            }
            i += 1;
        }
        assert(self@.take(self.obj.len() as int) == self@);
        self.obj = kept;
    }
}

/// Where the record for `obj`'s path stands and whether it differs.
pub fn verifcation(index: &Index, obj: &ObjectInfo) -> (r: StageAction)
    ensures
        r == stage_action(index@, obj@),
{
    let mut i: usize = 0;
    while i < index.obj.len()
        invariant
            i <= index.obj.len(),
            forall|j: int| 0 <= j < i ==> index@[j].path != obj@.path,
        decreases index.obj.len() - i,
    {
        let e = &index.obj[i];
        assert(e@ == index@[i as int]);
        if e.path == obj.path {
            assert(first_with_path(index@, obj@.path, i as int));
            proof {
                let k = choose|k: int| first_with_path(index@, obj@.path, k);
                lemma_first_unique(index@, obj@.path, i as int, k);
            }
            if e.ctime == obj.ctime && e.mtime == obj.mtime && e.hash == obj.hash {
                return StageAction::NoChange;
            } else {
                return StageAction::ReplaceAt(i);
            }
        }
        i += 1;
    }
    StageAction::Insert
}

proof fn lemma_parse_lines_fails_later(ls: Seq<Seq<char>>, i: int)
    requires
        0 <= i < ls.len(),
        parse_info(ls[i]) is None,
    ensures
        parse_info_lines(ls) is None,
    decreases ls.len(),
{
    if i < ls.len() - 1 {
        lemma_parse_lines_fails_later(ls.drop_last(), i);
    }
}

/// After staging `o` into an index whose paths are unique, the paths are
/// still unique, and the one entry with `o`'s path has `o`'s times and hash;
/// where the index held a different entry for that path, that entry is gone
/// and `o` itself stands last.
pub proof fn lemma_stage_replaces(s: Seq<InfoView>, o: InfoView)
    requires
        unique_paths(s),
    ensures
        unique_paths(staged(s, o)),
        exists|i: int| first_with_path(staged(s, o), o.path, i) && same_state(staged(s, o)[i], o),
        forall|i: int|
            0 <= i < staged(s, o).len() && #[trigger] staged(s, o)[i].path == o.path ==> same_state(
                staged(s, o)[i],
                o,
            ),
        stage_action(s, o) != StageAction::NoChange ==> staged(s, o).last() == o,
        (exists|i: int| 0 <= i < s.len() && s[i].path == o.path && !same_state(s[i], o))
            ==> stage_action(s, o) is ReplaceAt,
{
    let t = staged(s, o);
    if exists|i: int| first_with_path(s, o.path, i) {
        let k = choose|i: int| first_with_path(s, o.path, i);
        assert forall|i: int| 0 <= i < s.len() && s[i].path == o.path implies i == k by {
            if i < k {
            } else if i > k {
                assert(s[k].path == s[i].path);
            }
        }
        if same_state(s[k], o) {
            assert(first_with_path(t, o.path, k));
        } else {
            let r = s.remove(k);
            assert forall|i: int| 0 <= i < r.len() implies r[i].path != o.path by {
                if i < k {
                    assert(r[i] == s[i]);
                } else {
                    assert(r[i] == s[i + 1]);
                }
            }
            assert(t == r.push(o));
            assert(first_with_path(t, o.path, t.len() - 1));
            assert forall|i: int, j: int| 0 <= i < j < t.len() implies t[i].path != t[j].path by {
                if j < t.len() - 1 {
                    let a = if i < k { i } else { i + 1 };
                    let b = if j < k { j } else { j + 1 };
                    assert(t[i] == s[a] && t[j] == s[b]);
                }
            }
        }
    } else {
        assert forall|i: int| 0 <= i < s.len() implies s[i].path != o.path by {
            if s[i].path == o.path {
                let m = choose|m: int| 0 <= m < s.len() && s[m].path == o.path && forall|j: int|
                    0 <= j < m ==> s[j].path != o.path;
                lemma_some_first(s, o.path, i);
            }
        }
        assert(first_with_path(t, o.path, t.len() - 1));
    }
}

proof fn lemma_some_first(s: Seq<InfoView>, p: Seq<char>, i: int)
    requires
        0 <= i < s.len(),
        s[i].path == p,
    ensures
        exists|k: int| first_with_path(s, p, k),
    decreases i,
{
    if exists|j: int| 0 <= j < i && s[j].path == p {
        let j = choose|j: int| 0 <= j < i && s[j].path == p;
        lemma_some_first(s, p, j);
    } else {
        assert(first_with_path(s, p, i));
    }
}

/// Staging the same record twice, with its times and content unchanged,
/// changes nothing the second time.
pub proof fn lemma_restage_is_noop(s: Seq<InfoView>, o: InfoView)
    requires
        unique_paths(s),
    ensures
        stage_action(staged(s, o), o) == StageAction::NoChange,
        staged(staged(s, o), o) == staged(s, o),
{
    lemma_stage_replaces(s, o);
    let t = staged(s, o);
    let i = choose|i: int| first_with_path(t, o.path, i) && same_state(t[i], o);
    let k = choose|k: int| first_with_path(t, o.path, k);
    lemma_first_unique(t, o.path, i, k);
}

/// The map from path to content hash that records describe; where two
/// share a path the later one counts.
pub open spec fn files_of(s: Seq<InfoView>) -> Map<Seq<char>, Seq<char>>
    decreases s.len(),
{
    if s.len() == 0 {
        Map::empty()
    } else {
        files_of(s.drop_last()).insert(s.last().path, s.last().hash)
    }
}

/// No later record shares the path of record `k`.
pub open spec fn is_last_of_path(s: Seq<InfoView>, k: int) -> bool {
    forall|j: int| k < j < s.len() ==> s[j].path != s[k].path
}

pub proof fn lemma_files_last(s: Seq<InfoView>, k: int)
    requires
        0 <= k < s.len(),
        is_last_of_path(s, k),
    ensures
        files_of(s).contains_key(s[k].path),
        files_of(s)[s[k].path] == s[k].hash,
    decreases s.len(),
{
    if k < s.len() - 1 {
        lemma_files_last(s.drop_last(), k);
    }
}

pub proof fn lemma_files_absent(s: Seq<InfoView>, p: Seq<char>)
    requires
        forall|j: int| 0 <= j < s.len() ==> s[j].path != p,
    ensures
        !files_of(s).contains_key(p),
    decreases s.len(),
{
    if s.len() > 0 {
        lemma_files_absent(s.drop_last(), p);
    }
}

pub proof fn lemma_files_present(s: Seq<InfoView>, p: Seq<char>)
    requires
        files_of(s).contains_key(p),
    ensures
        exists|k: int| 0 <= k < s.len() && s[k].path == p && is_last_of_path(s, k),
    decreases s.len(),
{
    if s.last().path == p {
        assert(is_last_of_path(s, s.len() - 1));
    } else {
        lemma_files_present(s.drop_last(), p);
        let k = choose|k: int|
            0 <= k < s.len() - 1 && s.drop_last()[k].path == p && is_last_of_path(s.drop_last(), k);
        assert forall|j: int| k < j < s.len() implies s[j].path != s[k].path by {
            if j < s.len() - 1 {
                assert(s.drop_last()[j] == s[j]);
            }
        }
        assert(s.drop_last()[k] == s[k]);
        assert(0 <= k < s.len() && s[k].path == p && is_last_of_path(s, k));
    }
}

impl Index {
    /// Where the last record with path `p` stands, if any.
    pub fn find_last(&self, p: &str) -> (r: Option<usize>)
        ensures
            r matches Some(k) ==> k < self@.len() && self@[k as int].path == p@ && is_last_of_path(
                self@,
                k as int,
            ),
            r is None ==> forall|j: int| 0 <= j < self@.len() ==> self@[j].path != p@,
            r is None <==> !files_of(self@).contains_key(p@),
            r matches Some(k) ==> files_of(self@)[p@] == self@[k as int].hash,
    {
        let mut i: usize = self.obj.len();
        while i > 0
            invariant
                i <= self.obj.len(),
                forall|j: int| i <= j < self@.len() ==> self@[j].path != p@,
            decreases i,
        {
            if crate::text::str_eq(self.obj[i - 1].path.as_str(), p) {
                proof {
                    lemma_files_last(self@, i - 1);
                }
                return Some(i - 1);
            }
            i -= 1;
        }
        proof {
            lemma_files_absent(self@, p@);
        }
        None
    }

    /// Whether no later record shares the path of record `k`.
    pub fn last_of_path(&self, k: usize) -> (r: bool)
        requires
            k < self@.len(),
        ensures
            r == is_last_of_path(self@, k as int),
    {
        assert(self@.len() == self.obj.len());
        let mut j: usize = k + 1;
        while j < self.obj.len()
            invariant
                k < j <= self.obj.len(),
                forall|m: int| k < m < j ==> self@[m].path != self@[k as int].path,
            decreases self.obj.len() - j,
        {
            assert(self@[j as int] == self.obj@[j as int]@);
            assert(self@[k as int] == self.obj@[k as int]@);
            if self.obj[j].path == self.obj[k].path {
                return false;
            }
            j += 1;
        }
        true
    }
}

/// A record that its index line can hold: kind, hash and path are words.
pub open spec fn writable(v: InfoView) -> bool {
    is_word(v.obj_type) && is_word(v.hash) && is_word(v.path)
}

/// An index line reads back as the record it was written from.
pub proof fn lemma_info_line_round_trip(v: InfoView)
    requires
        writable(v),
    ensures
        parse_info(info_line(v)) == Some(v),
{
    let d0 = decimal(v.permissions as nat);
    let d4 = decimal(v.size as nat);
    let d5 = decimal(v.ctime as nat);
    let d6 = decimal(v.mtime as nat);
    lemma_decimal_round_trip(v.permissions as nat, u32::MAX as nat);
    lemma_decimal_round_trip(v.size as nat, u64::MAX as nat);
    lemma_decimal_round_trip(v.ctime as nat, u64::MAX as nat);
    lemma_decimal_round_trip(v.mtime as nat, u64::MAX as nat);
    lemma_words_single(d0);
    let x1 = d0 + seq![' '] + v.hash;
    lemma_words_push(d0, v.hash);
    let x2 = x1 + seq![' '] + v.obj_type;
    lemma_words_push(x1, v.obj_type);
    let x3 = x2 + seq![' '] + v.path;
    lemma_words_push(x2, v.path);
    let x4 = x3 + seq![' '] + d4;
    lemma_words_push(x3, d4);
    let x5 = x4 + seq![' '] + d5;
    lemma_words_push(x4, d5);
    let x6 = x5 + seq![' '] + d6;
    lemma_words_push(x5, d6);
    assert(x6 == info_line(v));
    let w = words_of(info_line(v));
    assert(w == seq![d0, v.hash, v.obj_type, v.path, d4, d5, d6]);
}

proof fn lemma_info_line_chars(v: InfoView)
    requires
        writable(v),
    ensures
        forall|i: int| 0 <= i < info_line(v).len() ==> #[trigger] info_line(v)[i] != '\n',
        strip_cr(info_line(v)) == info_line(v),
{
    lemma_decimal_round_trip(v.permissions as nat, u32::MAX as nat);
    lemma_decimal_round_trip(v.size as nat, u64::MAX as nat);
    lemma_decimal_round_trip(v.ctime as nat, u64::MAX as nat);
    lemma_decimal_round_trip(v.mtime as nat, u64::MAX as nat);
    let l = info_line(v);
    let d6 = decimal(v.mtime as nat);
    let head = l.take(l.len() - d6.len());
    assert(l == head + d6);
    assert(l.last() == d6.last());
    assert forall|i: int| 0 <= i < l.len() implies #[trigger] l[i] != '\n' by {
        let d0 = decimal(v.permissions as nat);
        let d4 = decimal(v.size as nat);
        let d5 = decimal(v.ctime as nat);
        let x1 = d0 + seq![' '] + v.hash;
        let x2 = x1 + seq![' '] + v.obj_type;
        let x3 = x2 + seq![' '] + v.path;
        let x4 = x3 + seq![' '] + d4;
        let x5 = x4 + seq![' '] + d5;
        lemma_no_newline_join(d0, v.hash);
        lemma_no_newline_join(x1, v.obj_type);
        lemma_no_newline_join(x2, v.path);
        lemma_no_newline_join(x3, d4);
        lemma_no_newline_join(x4, d5);
        lemma_no_newline_join(x5, d6);
    }
}

/// No line feed in `s`.
pub open spec fn no_newline(s: Seq<char>) -> bool {
    forall|i: int| 0 <= i < s.len() ==> #[trigger] s[i] != '\n'
}

proof fn lemma_no_newline_join(a: Seq<char>, w: Seq<char>)
    requires
        no_newline(a) || is_word(a),
        is_word(w),
    ensures
        no_newline(a + seq![' '] + w),
{
    let t = a + seq![' '] + w;
    assert forall|i: int| 0 <= i < t.len() implies #[trigger] t[i] != '\n' by {
        if i < a.len() {
            assert(t[i] == a[i]);
        } else if i == a.len() {
            assert(t[i] == ' ');
        } else {
            assert(t[i] == w[i - a.len() - 1]);
        }
    }
}

/// The lines of the index text of `s`: one per record.
pub open spec fn info_lines(s: Seq<InfoView>) -> Seq<Seq<char>> {
    Seq::new(s.len(), |i: int| info_line(s[i]))
}

proof fn lemma_index_text_scan(s: Seq<InfoView>)
    requires
        forall|i: int| 0 <= i < s.len() ==> writable(#[trigger] s[i]),
    ensures
        line_scan(index_text(s), index_text(s).len()) == (info_lines(s), Seq::<char>::empty()),
    decreases s.len(),
{
    if s.len() > 0 {
        let p = s.drop_last();
        assert forall|i: int| 0 <= i < p.len() implies writable(#[trigger] p[i]) by {
            assert(p[i] == s[i]);
        }
        lemma_index_text_scan(p);
        lemma_info_line_chars(s.last());
        lemma_line_scan_push(index_text(p), info_line(s.last()));
        assert(info_lines(p).push(info_line(s.last())) =~= info_lines(s));
    }
}

proof fn lemma_parse_info_lines(s: Seq<InfoView>)
    requires
        forall|i: int| 0 <= i < s.len() ==> writable(#[trigger] s[i]),
    ensures
        parse_info_lines(info_lines(s)) == Some(s),
    decreases s.len(),
{
    if s.len() > 0 {
        let p = s.drop_last();
        assert forall|i: int| 0 <= i < p.len() implies writable(#[trigger] p[i]) by {
            assert(p[i] == s[i]);
        }
        lemma_parse_info_lines(p);
        assert(info_lines(s).drop_last() =~= info_lines(p));
        lemma_info_line_round_trip(s.last());
        assert(p.push(s.last()) =~= s);
    } else {
        assert(info_lines(s) =~= Seq::<Seq<char>>::empty());
        assert(s =~= Seq::<InfoView>::empty());
    }
}

/// The text of an index reads back as the same records, where each
/// record's kind, hash and path are words.
pub proof fn lemma_index_round_trip(s: Seq<InfoView>)
    requires
        forall|i: int| 0 <= i < s.len() ==> writable(#[trigger] s[i]),
    ensures
        parse_index(index_text(s)) == Some(s),
{
    lemma_index_text_scan(s);
    lemma_parse_info_lines(s);
}

} // verus!
