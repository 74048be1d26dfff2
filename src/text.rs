//! Character-level helpers: conversion between strings and character
//! vectors, line and word splitting, and decimal numbers.
use vstd::prelude::*;
use vstd::slice::slice_to_vec;
use vstd::utf8::{decode_utf8, encode_utf8, valid_utf8};

verus! {

broadcast use vstd::string::group_string_axioms;

/// The characters of `s`, in order.
pub fn chars_of(s: &str) -> (r: Vec<char>)
    ensures
        r@ == s@,
{
    let mut out: Vec<char> = Vec::new();
    for c in it: s.chars()
        invariant
            it.seq() == s@,
            out@ == it.seq().take(it.index() as int),
    {
        out.push(c);
    }
    out
}

/// Relies on `String::push`: appends one character.
#[verifier::external_body]
fn push_char(s: &mut String, c: char)
    ensures
        final(s)@ == old(s)@.push(c),
{
    s.push(c);
}

/// A string holding exactly the characters of `v`.
pub fn string_of(v: &Vec<char>) -> (r: String)
    ensures
        r@ == v@,
{
    let mut out = String::new();
    let mut i: usize = 0;
    while i < v.len()
        invariant
            i <= v.len(),
            out@ == v@.take(i as int),
        decreases v.len() - i,
    {
        push_char(&mut out, v[i]);
        assert(v@.take(i as int).push(v[i as int]) == v@.take(i + 1));
        i += 1;
    }
    assert(v@.take(v.len() as int) == v@);
    out
}

/// Appends the characters of `s` to `out`.
pub fn push_str(out: &mut Vec<char>, s: &str)
    ensures
        final(out)@ == old(out)@ + s@,
{
    let cs = chars_of(s);
    let mut i: usize = 0;
    while i < cs.len()
        invariant
            i <= cs.len(),
            cs@ == s@,
            out@ == old(out)@ + s@.take(i as int),
        decreases cs.len() - i,
    {
        out.push(cs[i]);
        assert(s@.take(i as int).push(s@[i as int]) == s@.take(i + 1));
        i += 1;
    }
    assert(s@.take(s@.len() as int) == s@);
}

/// White space, as `char::is_whitespace` has it: the characters with the
/// Unicode White_Space property, which separate words and are trimmed.
pub open spec fn is_space(c: char) -> bool {
    ('\t' <= c && c <= '\r') || c == ' ' || c == '\u{85}' || c == '\u{a0}' || c == '\u{1680}'
        || ('\u{2000}' <= c && c <= '\u{200a}') || c == '\u{2028}' || c == '\u{2029}'
        || c == '\u{202f}' || c == '\u{205f}' || c == '\u{3000}'
}

pub fn is_space_char(c: char) -> (r: bool)
    ensures
        r == is_space(c),
{
    ('\t' <= c && c <= '\r') || c == ' ' || c == '\u{85}' || c == '\u{a0}' || c == '\u{1680}'
        || ('\u{2000}' <= c && c <= '\u{200a}') || c == '\u{2028}' || c == '\u{2029}'
        || c == '\u{202f}' || c == '\u{205f}' || c == '\u{3000}'
}

/// Whether every character of `s` is a space (true of the empty sequence).
pub open spec fn is_blank(s: Seq<char>) -> bool {
    forall|i: int| 0 <= i < s.len() ==> is_space(#[trigger] s[i])
}

pub fn is_blank_str(s: &str) -> (r: bool)
    ensures
        r == is_blank(s@),
{
    let cs = chars_of(s);
    let mut i: usize = 0;
    while i < cs.len()
        invariant
            i <= cs.len(),
            cs@ == s@,
            forall|j: int| 0 <= j < i ==> is_space(#[trigger] s@[j]),
        decreases cs.len() - i,
    {
        if !is_space_char(cs[i]) {
            return false;
        }
        i += 1;
    }
    true
}

/// A line without its carriage return, if it ends with one.
pub open spec fn strip_cr(s: Seq<char>) -> Seq<char> {
    if s.len() > 0 && s.last() == '\r' {
        s.drop_last()
    } else {
        s
    }
}

/// The finished lines and the pending line after reading the first `n`
/// characters of `s`.
pub open spec fn line_scan(s: Seq<char>, n: nat) -> (Seq<Seq<char>>, Seq<char>)
    decreases n,
{
    if n == 0 {
        (Seq::empty(), Seq::empty())
    } else {
        let (done, cur) = line_scan(s, (n - 1) as nat);
        if s[n - 1] == '\n' {
            (done.push(strip_cr(cur)), Seq::empty())
        } else {
            (done, cur.push(s[n - 1]))
        }
    }
}

/// The lines of a text: pieces between line feeds, each without a final
/// carriage return; a last piece that is empty is not a line.
pub open spec fn lines_of(s: Seq<char>) -> Seq<Seq<char>> {
    let (done, cur) = line_scan(s, s.len());
    if cur.len() == 0 {
        done
    } else {
        done.push(cur)
    }
}

/// The views of a sequence of strings.
pub open spec fn views(v: Seq<String>) -> Seq<Seq<char>> {
    Seq::new(v.len(), |i: int| v[i]@)
}

pub fn strip_cr_vec(cur: &Vec<char>) -> (r: Vec<char>)
    ensures
        r@ == strip_cr(cur@),
{
    let mut r = cur.clone();
    assert(r@ == cur@);
    if r.len() > 0 && r[r.len() - 1] == '\r' {
        r.pop();
    }
    r
}

/// The lines of `s`, as `str::lines` gives them.
pub fn lines(s: &str) -> (r: Vec<String>)
    ensures
        views(r@) == lines_of(s@),
{
    let cs = chars_of(s);
    let mut done: Vec<String> = Vec::new();
    let mut cur: Vec<char> = Vec::new();
    let mut i: usize = 0;
    while i < cs.len()
        invariant
            i <= cs.len(),
            cs@ == s@,
            (views(done@), cur@) == line_scan(s@, i as nat),
        decreases cs.len() - i,
    {
        let c = cs[i];
        if c == '\n' {
            let line = strip_cr_vec(&cur);
            done.push(string_of(&line));
            cur = Vec::new();
        } else {
            cur.push(c);
        }
        i += 1;
        assert(views(done@) == line_scan(s@, i as nat).0);
    }
    if cur.len() > 0 {
        done.push(string_of(&cur));
    }
    assert(views(done@) == lines_of(s@));
    done
}

/// The words and the pending word after reading the first `n` characters
/// of `s`.
pub open spec fn word_scan(s: Seq<char>, n: nat) -> (Seq<Seq<char>>, Seq<char>)
    decreases n,
{
    if n == 0 {
        (Seq::empty(), Seq::empty())
    } else {
        let (done, cur) = word_scan(s, (n - 1) as nat);
        if is_space(s[n - 1]) {
            if cur.len() == 0 {
                (done, cur)
            } else {
                (done.push(cur), Seq::empty())
            }
        } else {
            (done, cur.push(s[n - 1]))
        }
    }
}

/// The maximal runs of non-space characters of `s`, in order.
pub open spec fn words_of(s: Seq<char>) -> Seq<Seq<char>> {
    let (done, cur) = word_scan(s, s.len());
    if cur.len() == 0 {
        done
    } else {
        done.push(cur)
    }
}

/// The words of `s`, as `str::split_whitespace` gives them.
pub fn words(s: &str) -> (r: Vec<String>)
    ensures
        views(r@) == words_of(s@),
{
    let cs = chars_of(s);
    let mut done: Vec<String> = Vec::new();
    let mut cur: Vec<char> = Vec::new();
    let mut i: usize = 0;
    while i < cs.len()
        invariant
            i <= cs.len(),
            cs@ == s@,
            (views(done@), cur@) == word_scan(s@, i as nat),
        decreases cs.len() - i,
    {
        let c = cs[i];
        if is_space_char(c) {
            if cur.len() > 0 {
                done.push(string_of(&cur));
                cur = Vec::new();
            }
        } else {
            cur.push(c);
        }
        i += 1;
        assert(views(done@) == word_scan(s@, i as nat).0);
    }
    if cur.len() > 0 {
        done.push(string_of(&cur));
    }
    assert(views(done@) == words_of(s@));
    done
}

/// The decimal digit for `d < 10`.
pub open spec fn digit_char(d: nat) -> char {
    if d == 0 { '0' }
    else if d == 1 { '1' }
    else if d == 2 { '2' }
    else if d == 3 { '3' }
    else if d == 4 { '4' }
    else if d == 5 { '5' }
    else if d == 6 { '6' }
    else if d == 7 { '7' }
    else if d == 8 { '8' }
    else { '9' }
}

/// The value of a decimal digit character.
pub open spec fn digit_value(c: char) -> nat {
    (c as u32 - '0' as u32) as nat
}

pub open spec fn is_digit(c: char) -> bool {
    '0' <= c && c <= '9'
}

/// The decimal form of `n`, without leading zeros.
pub open spec fn decimal(n: nat) -> Seq<char>
    decreases n,
{
    if n < 10 {
        seq![digit_char(n)]
    } else {
        decimal(n / 10).push(digit_char(n % 10))
    }
}

/// The number that a sequence of digits stands for.
pub open spec fn digits_value(s: Seq<char>) -> nat
    decreases s.len(),
{
    if s.len() == 0 {
        0
    } else {
        digits_value(s.drop_last()) * 10 + digit_value(s.last())
    }
}

/// What parsing `s` as an unsigned number below `bound` gives: one or more
/// digits whose value is at most `bound`.
pub open spec fn parse_decimal(s: Seq<char>, bound: nat) -> Option<nat> {
    if s.len() > 0 && (forall|i: int| 0 <= i < s.len() ==> is_digit(#[trigger] s[i]))
        && digits_value(s) <= bound {
        Some(digits_value(s))
    } else {
        None
    }
}

fn digit_of(d: u64) -> (c: char)
    requires
        d < 10,
    ensures
        c == digit_char(d as nat),
{
    if d == 0 { '0' }
    else if d == 1 { '1' }
    else if d == 2 { '2' }
    else if d == 3 { '3' }
    else if d == 4 { '4' }
    else if d == 5 { '5' }
    else if d == 6 { '6' }
    else if d == 7 { '7' }
    else if d == 8 { '8' }
    else { '9' }
}

/// Appends the decimal form of `n` to `out`.
pub fn push_decimal(out: &mut Vec<char>, n: u64)
    ensures
        final(out)@ == old(out)@ + decimal(n as nat),
    decreases n,
{
    if n < 10 {
        out.push(digit_of(n));
    } else {
        push_decimal(out, n / 10);
        out.push(digit_of(n % 10));
        assert(old(out)@ + decimal(n as nat) == old(out)@ + decimal((n / 10) as nat) + seq![
            digit_char((n % 10) as nat),
        ]);
    }
}

proof fn lemma_digits_value_grows(s: Seq<char>, i: int)
    requires
        0 <= i <= s.len(),
    ensures
        digits_value(s.take(i)) <= digits_value(s),
    decreases s.len() - i,
{
    if i < s.len() {
        lemma_digits_value_grows(s, i + 1);
        assert(s.take(i + 1).drop_last() == s.take(i));
    } else {
        assert(s.take(i) == s);
    }
}

/// Parses `s` as an unsigned decimal number no greater than `bound`.
pub fn parse_u64(s: &str, bound: u64) -> (r: Option<u64>)
    ensures
        r is Some <==> parse_decimal(s@, bound as nat) is Some,
        r is Some ==> r->0 as nat == parse_decimal(s@, bound as nat)->0,
{
    let cs = chars_of(s);
    if cs.len() == 0 {
        return None;
    }
    let mut acc: u64 = 0;
    let mut i: usize = 0;
    while i < cs.len()
        invariant
            i <= cs.len(),
            cs@ == s@,
            acc as nat == digits_value(s@.take(i as int)),
            acc <= bound,
            forall|j: int| 0 <= j < i ==> is_digit(#[trigger] s@[j]),
        decreases cs.len() - i,
    {
        let c = cs[i];
        assert(s@.take(i + 1).drop_last() == s@.take(i as int));
        if !('0' <= c && c <= '9') {
            return None;
        }
        let d = (c as u32 - '0' as u32) as u64;
        if d > bound || acc > (bound - d) / 10 {
            proof {
                lemma_digits_value_grows(s@, i + 1);
                assert(digits_value(s@.take(i + 1)) == acc * 10 + d);
                if d <= bound {
                    assert(acc * 10 + d > bound) by (nonlinear_arith)
                        requires acc > (bound - d) / 10, d <= 9, d <= bound;
                }
            }
            return None;
        }
        assert(acc * 10 + d <= bound) by (nonlinear_arith)
            requires acc <= (bound - d) / 10, d <= 9, d <= bound;
        acc = acc * 10 + d;
        i += 1;
    }
    assert(s@.take(s@.len() as int) == s@);
    Some(acc)
}

/// Relies on `String::from_utf8`: the text that `bytes` encode, or `None`
/// where they are not valid UTF-8.
#[verifier::external_body]
pub(crate) fn text_from_bytes(bytes: Vec<u8>) -> (r: Option<String>)
    ensures
        r is Some <==> valid_utf8(bytes@),
        r matches Some(s) ==> s@ == decode_utf8(bytes@),
{
    String::from_utf8(bytes).ok()
}

/// The UTF-8 bytes of `s`.
pub fn bytes_of(s: &str) -> (r: Vec<u8>)
    ensures
        r@ == encode_utf8(s@),
{
    slice_to_vec(s.as_bytes())
}

/// `a` followed by `b`.
pub fn concat_bytes(a: &[u8], b: &[u8]) -> (r: Vec<u8>)
    ensures
        r@ == a@ + b@,
{
    let mut out = slice_to_vec(a);
    let mut i: usize = 0;
    while i < b.len()
        invariant
            i <= b.len(),
            out@ == a@ + b@.take(i as int),
        decreases b.len() - i,
    {
        out.push(b[i]);
        assert(b@.take(i + 1) == b@.take(i as int).push(b@[i as int]));
        i += 1;
    }
    assert(b@.take(b@.len() as int) == b@);
    out
}

/// Whether `a` and `b` hold the same characters.
pub fn str_eq(a: &str, b: &str) -> (r: bool)
    ensures
        r == (a@ == b@),
{
    let x = chars_of(a);
    let y = chars_of(b);
    if x.len() != y.len() {
        return false;
    }
    let mut i: usize = 0;
    while i < x.len()
        invariant
            i <= x.len(),
            x.len() == y.len(),
            x@ == a@,
            y@ == b@,
            forall|j: int| 0 <= j < i ==> x@[j] == y@[j],
        decreases x.len() - i,
    {
        if x[i] != y[i] {
            return false;
        }
        i += 1;
    }
    assert(x@ =~= y@);
    true
}

/// What follows `p` in `s`, where `s` begins with `p`.
pub fn strip_prefix(s: &str, p: &str) -> (r: Option<String>)
    ensures
        r is Some <==> (p@.len() <= s@.len() && s@.take(p@.len() as int) == p@),
        r matches Some(t) ==> t@ == s@.skip(p@.len() as int),
{
    let x = chars_of(s);
    let y = chars_of(p);
    if y.len() > x.len() {
        return None;
    }
    let mut i: usize = 0;
    while i < y.len()
        invariant
            i <= y.len() <= x.len(),
            x@ == s@,
            y@ == p@,
            forall|j: int| 0 <= j < i ==> x@[j] == y@[j],
        decreases y.len() - i,
    {
        if x[i] != y[i] {
            assert(s@.take(p@.len() as int)[i as int] != p@[i as int]);
            return None;
        }
        i += 1;
    }
    assert(s@.take(p@.len() as int) =~= p@);
    let mut rest: Vec<char> = Vec::new();
    let mut k: usize = y.len();
    while k < x.len()
        invariant
            y.len() <= k <= x.len(),
            x@ == s@,
            y@ == p@,
            rest@ == s@.subrange(p@.len() as int, k as int),
        decreases x.len() - k,
    {
        rest.push(x[k]);
        assert(s@.subrange(p@.len() as int, k + 1) == s@.subrange(p@.len() as int, k as int).push(
            x@[k as int],
        ));
        k += 1;
    }
    Some(string_of(&rest))
}

/// `s` without its leading spaces.
pub open spec fn trim_start(s: Seq<char>) -> Seq<char>
    decreases s.len(),
{
    if s.len() > 0 && is_space(s[0]) {
        trim_start(s.drop_first())
    } else {
        s
    }
}

/// `s` without its trailing spaces.
pub open spec fn trim_end(s: Seq<char>) -> Seq<char>
    decreases s.len(),
{
    if s.len() > 0 && is_space(s.last()) {
        trim_end(s.drop_last())
    } else {
        s
    }
}

/// `s` without leading and trailing spaces.
pub open spec fn trim(s: Seq<char>) -> Seq<char> {
    trim_end(trim_start(s))
}

/// `s` without leading and trailing spaces.
pub fn trim_str(s: &str) -> (r: String)
    ensures
        r@ == trim(s@),
{
    let cs = chars_of(s);
    let n = cs.len();
    let mut a: usize = 0;
    assert(s@.skip(0) == s@);
    while a < n && is_space_char(cs[a])
        invariant
            a <= n,
            n == cs.len(),
            cs@ == s@,
            trim_start(s@) == trim_start(s@.skip(a as int)),
        decreases n - a,
    {
        assert(s@.skip(a as int).drop_first() == s@.skip(a + 1));
        a += 1;
    }
    let mut b: usize = n;
    while b > a && is_space_char(cs[b - 1])
        invariant
            a <= b <= n,
            n == cs.len(),
            cs@ == s@,
            trim_end(s@.skip(a as int)) == trim_end(s@.subrange(a as int, b as int)),
        decreases b,
    {
        assert(s@.subrange(a as int, b as int).drop_last() == s@.subrange(a as int, b - 1));
        b -= 1;
    }
    assert(s@.skip(a as int) == s@.subrange(a as int, n as int));
    let mut out: Vec<char> = Vec::new();
    let mut k: usize = a;
    while k < b
        invariant
            a <= k <= b <= n,
            n == cs.len(),
            cs@ == s@,
            out@ == s@.subrange(a as int, k as int),
        decreases b - k,
    {
        out.push(cs[k]);
        assert(s@.subrange(a as int, k + 1) == s@.subrange(a as int, k as int).push(cs@[k as int]));
        k += 1;
    }
    string_of(&out)
}

/// A non-empty run of characters without spaces.
pub open spec fn is_word(s: Seq<char>) -> bool {
    s.len() > 0 && forall|i: int| 0 <= i < s.len() ==> !is_space(#[trigger] s[i])
}

proof fn lemma_word_scan_prefix(a: Seq<char>, b: Seq<char>, n: nat)
    requires
        n <= a.len(),
    ensures
        word_scan(a + b, n) == word_scan(a, n),
    decreases n,
{
    if n > 0 {
        lemma_word_scan_prefix(a, b, (n - 1) as nat);
        assert((a + b)[n - 1] == a[n - 1]);
    }
}

proof fn lemma_word_scan_run(s: Seq<char>, w: Seq<char>, k: nat)
    requires
        k <= w.len(),
        forall|i: int| 0 <= i < w.len() ==> !is_space(#[trigger] w[i]),
        word_scan(s, s.len()).1.len() == 0,
    ensures
        word_scan(s + w, s.len() + k) == (word_scan(s, s.len()).0, w.take(k as int)),
    decreases k,
{
    if k == 0 {
        lemma_word_scan_prefix(s, w, s.len());
        assert(w.take(0) =~= word_scan(s, s.len()).1);
    } else {
        lemma_word_scan_run(s, w, (k - 1) as nat);
        assert((s + w)[s.len() + k - 1] == w[k - 1]);
        assert(w.take(k as int) == w.take(k - 1).push(w[k - 1]));
    }
}

/// A space, then a word: the word follows the words before it.
pub proof fn lemma_words_push(s: Seq<char>, w: Seq<char>)
    requires
        is_word(w),
    ensures
        words_of(s + seq![' '] + w) == words_of(s).push(w),
{
    let t = s + seq![' '];
    lemma_word_scan_prefix(s, seq![' '], s.len());
    assert(t[s.len() as int] == ' ');
    assert(word_scan(t, t.len()).0 == words_of(s));
    lemma_word_scan_run(t, w, w.len());
    assert(w.take(w.len() as int) == w);
}

/// A word alone is one word.
pub proof fn lemma_words_single(w: Seq<char>)
    requires
        is_word(w),
    ensures
        words_of(w) == seq![w],
{
    let e = Seq::<char>::empty();
    lemma_word_scan_run(e, w, w.len());
    assert(e + w == w);
    assert(w.take(w.len() as int) == w);
}

proof fn lemma_line_scan_prefix(a: Seq<char>, b: Seq<char>, n: nat)
    requires
        n <= a.len(),
    ensures
        line_scan(a + b, n) == line_scan(a, n),
    decreases n,
{
    if n > 0 {
        lemma_line_scan_prefix(a, b, (n - 1) as nat);
        assert((a + b)[n - 1] == a[n - 1]);
    }
}

proof fn lemma_line_scan_run(s: Seq<char>, w: Seq<char>, k: nat)
    requires
        k <= w.len(),
        forall|i: int| 0 <= i < w.len() ==> #[trigger] w[i] != '\n',
        line_scan(s, s.len()).1.len() == 0,
    ensures
        line_scan(s + w, s.len() + k) == (line_scan(s, s.len()).0, w.take(k as int)),
    decreases k,
{
    if k == 0 {
        lemma_line_scan_prefix(s, w, s.len());
        assert(w.take(0) =~= line_scan(s, s.len()).1);
    } else {
        lemma_line_scan_run(s, w, (k - 1) as nat);
        assert((s + w)[s.len() + k - 1] == w[k - 1]);
        assert(w.take(k as int) == w.take(k - 1).push(w[k - 1]));
    }
}

/// A text whose lines all end in a line feed, followed by one more line
/// and its line feed, has one more finished line and nothing pending.
pub proof fn lemma_line_scan_push(s: Seq<char>, w: Seq<char>)
    requires
        forall|i: int| 0 <= i < w.len() ==> #[trigger] w[i] != '\n',
        line_scan(s, s.len()).1.len() == 0,
    ensures
        line_scan(s + w + seq!['\n'], s.len() + w.len() + 1) == (line_scan(s, s.len()).0.push(
            strip_cr(w),
        ), Seq::<char>::empty()),
{
    let t = s + w;
    lemma_line_scan_run(s, w, w.len());
    assert(w.take(w.len() as int) == w);
    lemma_line_scan_prefix(t, seq!['\n'], t.len());
    assert((t + seq!['\n'])[t.len() as int] == '\n');
}

proof fn lemma_digit(d: nat)
    requires
        d < 10,
    ensures
        digit_value(digit_char(d)) == d,
        is_digit(digit_char(d)),
{
    assert(('0' as u32) == 48);
    assert(('1' as u32) == 49);
    assert(('2' as u32) == 50);
    assert(('3' as u32) == 51);
    assert(('4' as u32) == 52);
    assert(('5' as u32) == 53);
    assert(('6' as u32) == 54);
    assert(('7' as u32) == 55);
    assert(('8' as u32) == 56);
    assert(('9' as u32) == 57);
}

proof fn lemma_decimal_facts(n: nat)
    ensures
        decimal(n).len() > 0,
        forall|i: int| 0 <= i < decimal(n).len() ==> is_digit(#[trigger] decimal(n)[i]),
        digits_value(decimal(n)) == n,
    decreases n,
{
    lemma_digit(n % 10);
    if n >= 10 {
        lemma_decimal_facts(n / 10);
        let d = decimal(n / 10);
        assert(decimal(n).drop_last() == d);
        assert(decimal(n).last() == digit_char(n % 10));
        assert(digits_value(decimal(n)) == digits_value(d) * 10 + digit_value(digit_char(n % 10)));
        assert((n / 10) * 10 + n % 10 == n) by (nonlinear_arith);
        assert forall|i: int| 0 <= i < decimal(n).len() implies is_digit(#[trigger] decimal(n)[i]) by {
            if i < d.len() {
                assert(decimal(n)[i] == d[i]);
            }
        }
    } else {
        assert(decimal(n).drop_last() =~= Seq::<char>::empty());
        assert(digits_value(Seq::<char>::empty()) == 0);
        assert(digits_value(decimal(n)) == digits_value(Seq::<char>::empty()) * 10 + digit_value(
            digit_char(n),
        ));
    }
}

/// The decimal form of a number is a word, and parses back to the number.
pub proof fn lemma_decimal_round_trip(n: nat, bound: nat)
    requires
        n <= bound,
    ensures
        is_word(decimal(n)),
        parse_decimal(decimal(n), bound) == Some(n),
{
    lemma_decimal_facts(n);
}

/// No line feed and no carriage return in `s`.
pub open spec fn is_line_safe(s: Seq<char>) -> bool {
    forall|i: int| 0 <= i < s.len() ==> #[trigger] s[i] != '\n' && s[i] != '\r'
}

/// Scanning `a` then `b`, where `a` leaves no pending line, finishes the
/// lines of `a` and then those of `b`.
pub proof fn lemma_line_scan_concat(a: Seq<char>, b: Seq<char>, k: nat)
    requires
        k <= b.len(),
        line_scan(a, a.len()).1.len() == 0,
    ensures
        line_scan(a + b, a.len() + k) == (line_scan(a, a.len()).0 + line_scan(b, k).0, line_scan(
            b,
            k,
        ).1),
    decreases k,
{
    if k == 0 {
        lemma_line_scan_prefix(a, b, a.len());
        assert(line_scan(a, a.len()).0 + Seq::<Seq<char>>::empty() =~= line_scan(a, a.len()).0);
    } else {
        lemma_line_scan_concat(a, b, (k - 1) as nat);
        assert((a + b)[a.len() + k - 1] == b[k - 1]);
        let d = line_scan(a, a.len()).0;
        let pb = line_scan(b, (k - 1) as nat);
        assert((d + pb.0).push(strip_cr(pb.1)) =~= d + pb.0.push(strip_cr(pb.1)));
    }
}

/// The lines of `a` followed by `b`, where `a` is empty or ends a line.
pub proof fn lemma_lines_concat(a: Seq<char>, b: Seq<char>)
    requires
        line_scan(a, a.len()).1.len() == 0,
    ensures
        lines_of(a + b) == lines_of(a) + lines_of(b),
{
    lemma_line_scan_concat(a, b, b.len());
    let (db, cb) = line_scan(b, b.len());
    if cb.len() > 0 {
        assert(lines_of(a + b) =~= lines_of(a) + lines_of(b));
    } else {
        assert(lines_of(a + b) =~= lines_of(a) + lines_of(b));
    }
}

/// A line-safe text and a line feed: one line.
pub proof fn lemma_single_line(x: Seq<char>)
    requires
        is_line_safe(x),
    ensures
        lines_of(x + seq!['\n']) == seq![x],
        line_scan(x + seq!['\n'], x.len() + 1).1.len() == 0,
{
    let e = Seq::<char>::empty();
    assert forall|i: int| 0 <= i < x.len() implies #[trigger] x[i] != '\n' by {}
    assert(line_scan(e, 0).1.len() == 0);
    lemma_line_scan_push(e, x);
    assert(e + x + seq!['\n'] == x + seq!['\n']);
    if x.len() > 0 {
        assert(x.last() != '\r');
    }
    assert(strip_cr(x) == x);
    assert(Seq::<Seq<char>>::empty().push(x) =~= seq![x]);
}

/// Lines joined by line feeds.
pub open spec fn join_lines(q: Seq<Seq<char>>) -> Seq<char>
    decreases q.len(),
{
    if q.len() == 0 {
        Seq::empty()
    } else if q.len() == 1 {
        q[0]
    } else {
        join_lines(q.drop_last()) + seq!['\n'] + q.last()
    }
}

proof fn lemma_join_scan(m: Seq<char>, k: nat)
    requires
        k <= m.len(),
        forall|i: int| 0 <= i < m.len() ==> #[trigger] m[i] != '\r',
        m.len() > 0 ==> m[0] != '\n',
    ensures
        ({
            let (d, cur) = line_scan(m, k);
            &&& join_lines(d.push(cur)) == m.take(k as int)
            &&& cur.len() > 0 ==> cur.last() == m[k - 1]
            &&& k > 0 ==> d.push(cur)[0].len() > 0
        }),
    decreases k,
{
    if k == 0 {
        assert(Seq::<Seq<char>>::empty().push(Seq::<char>::empty()) =~= seq![Seq::<char>::empty()]);
        assert(m.take(0) =~= Seq::<char>::empty());
    } else {
        lemma_join_scan(m, (k - 1) as nat);
        let (d, cur) = line_scan(m, (k - 1) as nat);
        let c = m[k - 1];
        assert(m.take(k as int) == m.take(k - 1).push(c));
        if c == '\n' {
            assert(strip_cr(cur) == cur);
            let q = d.push(cur).push(Seq::<char>::empty());
            assert(q.drop_last() == d.push(cur));
            assert(join_lines(q) =~= join_lines(d.push(cur)) + seq!['\n']);
            if k - 1 == 0 {
                assert(false);
            }
        } else {
            let q = d.push(cur.push(c));
            if d.len() == 0 {
                assert(q =~= seq![cur.push(c)]);
                assert(d.push(cur) =~= seq![cur]);
            } else {
                assert(q.drop_last() == d);
                assert(d.push(cur).drop_last() == d);
                assert(join_lines(q) =~= join_lines(d.push(cur)).push(c));
            }
            assert(q[0].len() > 0) by {
                if d.len() == 0 {
                    assert(q[0] == cur.push(c));
                } else {
                    assert(q[0] == d[0]);
                    assert(d.push(cur)[0] == d[0]);
                }
            }
        }
    }
}

/// The lines of a text ended by a line feed, joined again, give the text
/// back, where it holds no carriage return and does not start with a line
/// feed; its first line is not empty.
pub proof fn lemma_join_lines(m: Seq<char>)
    requires
        m.len() > 0,
        forall|i: int| 0 <= i < m.len() ==> #[trigger] m[i] != '\r',
        m[0] != '\n',
    ensures
        join_lines(lines_of(m + seq!['\n'])) == m,
        lines_of(m + seq!['\n']).len() > 0,
        lines_of(m + seq!['\n'])[0].len() > 0,
{
    lemma_join_scan(m, m.len());
    let (d, cur) = line_scan(m, m.len());
    lemma_line_scan_prefix(m, seq!['\n'], m.len());
    assert((m + seq!['\n'])[m.len() as int] == '\n');
    if cur.len() > 0 {
        assert(cur.last() != '\r');
    }
    assert(strip_cr(cur) == cur);
    assert(lines_of(m + seq!['\n']) == d.push(cur));
    assert(m.take(m.len() as int) == m);
}

} // verus!
