//! Ignore patterns: which paths a directory add skips.
use vstd::prelude::*;
use crate::error::VcsError;
use crate::text::{chars_of, lines, lines_of, string_of, trim, trim_str, views};

verus! {

broadcast use vstd::string::group_string_axioms;

/// Whether `glob::Pattern::new` accepts `pattern`.
pub uninterp spec fn glob_accepts(pattern: Seq<char>) -> bool;

/// Whether the compiled `pattern` matches `path` (`glob::Pattern::matches`).
pub uninterp spec fn glob_match(pattern: Seq<char>, path: Seq<char>) -> bool;

/// Relies on `glob::Pattern::new` (it fails exactly on the patterns it
/// rejects) and `glob::Pattern::matches` (whether the pattern matches the
/// whole of `path`).
#[verifier::external_body]
fn glob_matches(pattern: &str, path: &str) -> (r: Option<bool>)
    ensures
        r is Some <==> glob_accepts(pattern@),
        r matches Some(b) ==> b == glob_match(pattern@, path@),
{
    match glob::Pattern::new(pattern) {
        Ok(p) => Some(p.matches(path)),
        Err(_) => None,
    }
}

/// `s` without its trailing slashes.
pub open spec fn trim_slashes(s: Seq<char>) -> Seq<char>
    decreases s.len(),
{
    if s.len() > 0 && s.last() == '/' {
        trim_slashes(s.drop_last())
    } else {
        s
    }
}

/// The pattern that an ignore line stands for: the line trimmed, and a
/// trailing slash made to match everything below the directory.
pub open spec fn expand_pattern(line: Seq<char>) -> Seq<char> {
    let t = trim(line);
    if t.len() > 0 && t.last() == '/' {
        trim_slashes(t) + seq!['/', '*', '*']
    } else {
        t
    }
}

/// Whether an ignore line holds a pattern: not blank, not a comment.
pub open spec fn is_pattern_line(line: Seq<char>) -> bool {
    trim(line).len() > 0 && !(line.len() > 0 && line[0] == '#')
}

/// The patterns of the first `n` lines.
pub open spec fn patterns_of(ls: Seq<Seq<char>>, n: nat) -> Seq<Seq<char>>
    decreases n,
{
    if n == 0 || n > ls.len() {
        Seq::empty()
    } else if is_pattern_line(ls[n - 1]) {
        patterns_of(ls, (n - 1) as nat).push(expand_pattern(ls[n - 1]))
    } else {
        patterns_of(ls, (n - 1) as nat)
    }
}

/// The patterns that an ignore file holds.
pub open spec fn ignore_patterns(content: Seq<char>) -> Seq<Seq<char>> {
    patterns_of(lines_of(content), lines_of(content).len())
}

fn expand(line: &str) -> (r: String)
    ensures
        r@ == expand_pattern(line@),
{
    let t = chars_of(trim_str(line).as_str());
    if t.len() > 0 && t[t.len() - 1] == '/' {
        let mut n: usize = t.len();
        assert(t@.take(n as int) == t@);
        while n > 0 && t[n - 1] == '/'
            invariant
                n <= t.len(),
                trim_slashes(t@) == trim_slashes(t@.take(n as int)),
            decreases n,
        {
            assert(t@.take(n as int).drop_last() == t@.take(n - 1));
            n -= 1;
        }
        let mut out: Vec<char> = Vec::new();
        let mut i: usize = 0;
        while i < n
            invariant
                i <= n <= t.len(),
                out@ == t@.take(i as int),
            decreases n - i,
        {
            out.push(t[i]);
            assert(t@.take(i + 1) == t@.take(i as int).push(t@[i as int]));
            i += 1;
        }
        out.push('/');
        out.push('*');
        out.push('*');
        string_of(&out)
    } else {
        string_of(&t)
    }
}

/// Reads the patterns of an ignore file: one per line, blank lines and
/// lines starting with `#` skipped, each trimmed, and `dir/` standing for
/// `dir/**`. Fails on the first pattern that glob rejects.
pub fn parse_gitignore(content: &str) -> (r: Result<Vec<String>, VcsError>)
    ensures
        r is Ok <==> forall|i: int|
            0 <= i < ignore_patterns(content@).len() ==> glob_accepts(
                #[trigger] ignore_patterns(content@)[i],
            ),
        r matches Ok(ps) ==> views(ps@) == ignore_patterns(content@),
        r matches Err(e) ==> e is InvalidArgument,
{
    let ls = lines(content);
    let ghost lv = lines_of(content@);
    let mut out: Vec<String> = Vec::new();
    let mut i: usize = 0;
    while i < ls.len()
        invariant
            i <= ls.len(),
            views(ls@) == lv,
            lv == lines_of(content@),
            views(out@) == patterns_of(lv, i as nat),
            forall|k: int| 0 <= k < out@.len() ==> glob_accepts(#[trigger] views(out@)[k]),
        decreases ls.len() - i,
    {
        let line = ls[i].as_str();
        assert(line@ == lv[i as int]);
        let t = trim_str(line);
        let cs = chars_of(line);
        let first_hash = cs.len() > 0 && cs[0] == '#';
        if !t.as_str().is_empty() && !first_hash {
            let p = expand(line);
            match glob_matches(p.as_str(), "") {
                Some(_) => {
                    out.push(p);
                    assert(views(out@) =~= patterns_of(lv, (i + 1) as nat));
                },
                None => {
                    proof {
                        assert(is_pattern_line(lv[i as int]));
                        assert(!glob_accepts(expand_pattern(lv[i as int])));
                        let k = lemma_patterns_reject(lv, i as nat);
                        assert(!glob_accepts(ignore_patterns(content@)[k]));
                    }
                    return Err(VcsError::InvalidArgument(p));
                },
            }
        }
        i += 1;
    }
    Ok(out)
}

proof fn lemma_patterns_prefix(ls: Seq<Seq<char>>, n: nat, m: nat)
    requires
        n <= m <= ls.len(),
    ensures
        patterns_of(ls, n).len() <= patterns_of(ls, m).len(),
        forall|k: int|
            0 <= k < patterns_of(ls, n).len() ==> #[trigger] patterns_of(ls, m)[k] == patterns_of(
                ls,
                n,
            )[k],
    decreases m - n,
{
    if n < m {
        lemma_patterns_prefix(ls, n, (m - 1) as nat);
    }
}

proof fn lemma_patterns_reject(ls: Seq<Seq<char>>, i: nat) -> (k: int)
    requires
        i < ls.len(),
        is_pattern_line(ls[i as int]),
        !glob_accepts(expand_pattern(ls[i as int])),
    ensures
        0 <= k < patterns_of(ls, ls.len()).len(),
        !glob_accepts(patterns_of(ls, ls.len())[k]),
{
    lemma_patterns_prefix(ls, i + 1, ls.len());
    let k = patterns_of(ls, i + 1).len() - 1;
    assert(patterns_of(ls, ls.len())[k] == expand_pattern(ls[i as int]));
    k
}

/// Whether `q` is `path` itself or one of the directories above it; a
/// pattern that matches any of them ignores `path`.
pub open spec fn is_path_or_ancestor(path: Seq<char>, q: Seq<char>) -> bool {
    q == path || (q.len() < path.len() && path[q.len() as int] == '/' && path.take(
        q.len() as int,
    ) == q)
}

/// Whether an accepted pattern matches `path` or a directory above it.
pub open spec fn ignored(patterns: Seq<Seq<char>>, path: Seq<char>) -> bool {
    exists|i: int, q: Seq<char>|
        0 <= i < patterns.len() && is_path_or_ancestor(path, q) && glob_accepts(
            #[trigger] patterns[i],
        ) && #[trigger] glob_match(patterns[i], q)
}

fn matches_any(patterns: &Vec<String>, q: &str) -> (r: bool)
    ensures
        r == exists|i: int|
            0 <= i < patterns@.len() && glob_accepts(#[trigger] views(patterns@)[i]) && glob_match(
                views(patterns@)[i],
                q@,
            ),
{
    let mut i: usize = 0;
    while i < patterns.len()
        invariant
            i <= patterns.len(),
            forall|j: int|
                0 <= j < i ==> !(glob_accepts(#[trigger] views(patterns@)[j]) && glob_match(
                    views(patterns@)[j],
                    q@,
                )),
        decreases patterns.len() - i,
    {
        assert(views(patterns@)[i as int] == patterns@[i as int]@);
        match glob_matches(patterns[i].as_str(), q) {
            Some(true) => {
                return true;
            },
            _ => {},
        }
        i += 1;
    }
    false
}

/// Whether one of `patterns` matches `path` or a directory above it.
pub fn is_ignored(patterns: &Vec<String>, path: &str) -> (r: bool)
    ensures
        r == ignored(views(patterns@), path@),
{
    let cs = chars_of(path);
    let mut prefix: Vec<char> = Vec::new();
    let mut i: usize = 0;
    while i < cs.len()
        invariant
            i <= cs.len(),
            cs@ == path@,
            prefix@ == path@.take(i as int),
            forall|q: Seq<char>|
                is_path_or_ancestor(path@, q) && q.len() < i ==> !exists|j: int|
                    0 <= j < patterns@.len() && glob_accepts(#[trigger] views(patterns@)[j])
                        && glob_match(views(patterns@)[j], q),
        decreases cs.len() - i,
    {
        if cs[i] == '/' {
            let q = string_of(&prefix);
            if matches_any(patterns, q.as_str()) {
                assert(is_path_or_ancestor(path@, q@));
                return true;
            }
        }
        prefix.push(cs[i]);
        assert(path@.take(i + 1) == path@.take(i as int).push(cs@[i as int]));
        i += 1;
    }
    assert(path@.take(cs.len() as int) == path@);
    let whole = string_of(&prefix);
    let r = matches_any(patterns, whole.as_str());
    assert(is_path_or_ancestor(path@, path@));
    if !r {
        assert forall|j: int, q: Seq<char>|
            0 <= j < views(patterns@).len() && is_path_or_ancestor(path@, q) && glob_accepts(
                #[trigger] views(patterns@)[j],
            ) implies !#[trigger] glob_match(views(patterns@)[j], q) by {
            if q.len() < path@.len() {
            }
        }
    }
    r
}

} // verus!
