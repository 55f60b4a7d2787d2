//! The anchor extractor: keep the lines between a named pair of marker
//! lines.
//!
//! A marker line contains the token `ANCHOR:` (start) or `ANCHOR_END:`
//! (end) followed by optional whitespace and a name of word characters,
//! underscores and hyphens. Scanning is a two-state machine: searching for
//! the start marker of the requested name, then capturing lines until the
//! end marker of the same name. Marker lines are metadata and never part
//! of the output: the opening and closing markers are dropped, and any
//! start-marker line seen while capturing is suppressed as well. An
//! end-marker line for a different name seen while capturing is consumed
//! without closing the capture, and scanning stops for good at the
//! matching end marker.

use vstd::prelude::*;
use vstd::string::*;
use crate::range::{full_range, lemma_full_range_identity, take_lines_spec};
use crate::text::{
    join_lines, joins_cleanly, lemma_join_normalized, lemma_line_seq_no_newline, line_seq,
    line_spans, join_spans, no_newline, span_lines, spans_ok,
};

verus! {

/// Whitespace the marker grammar tolerates between the token and the name.
pub open spec fn is_space_char(c: char) -> bool {
    c == ' ' || c == '\t' || c == '\r' || c == '\x0b' || c == '\x0c'
}

/// A character an anchor name may consist of: ASCII letters and digits,
/// underscore and hyphen.
pub open spec fn is_word_char(c: char) -> bool {
    ('a' <= c && c <= 'z') || ('A' <= c && c <= 'Z') || ('0' <= c && c <= '9') || c == '_' || c
        == '-'
}

/// The token opening an anchored region.
pub open spec fn start_tok() -> Seq<char> {
    seq!['A', 'N', 'C', 'H', 'O', 'R', ':']
}

/// The token closing an anchored region.
pub open spec fn end_tok() -> Seq<char> {
    seq!['A', 'N', 'C', 'H', 'O', 'R', '_', 'E', 'N', 'D', ':']
}

/// The token occurs in `line` at position `i`.
pub open spec fn tok_at(line: Seq<char>, tok: Seq<char>, i: int) -> bool {
    0 <= i && i + tok.len() <= line.len() && line.subrange(i, i + tok.len() as int) == tok
}

/// The first position at or after `j` holding a non-whitespace character
/// (the length of `line` when there is none).
pub open spec fn name_start(line: Seq<char>, j: int) -> int
    decreases line.len() - j,
{
    if j < 0 || j >= line.len() {
        line.len() as int
    } else if is_space_char(line[j]) {
        name_start(line, j + 1)
    } else {
        j
    }
}

/// The first position at or after `k` holding a non-word character (the
/// length of `line` when there is none).
pub open spec fn name_end(line: Seq<char>, k: int) -> int
    decreases line.len() - k,
{
    if k < 0 || k >= line.len() {
        line.len() as int
    } else if is_word_char(line[k]) {
        name_end(line, k + 1)
    } else {
        k
    }
}

/// A marker occurrence at position `i`: the token, then optional
/// whitespace, then at least one word character.
pub open spec fn marker_at(line: Seq<char>, tok: Seq<char>, i: int) -> bool {
    tok_at(line, tok, i) && {
        let k = name_start(line, i + tok.len() as int);
        k < line.len() && is_word_char(line[k])
    }
}

/// The line is a marker line for this token.
pub open spec fn is_marker(line: Seq<char>, tok: Seq<char>) -> bool {
    exists|i: int| marker_at(line, tok, i)
}

/// The position of the leftmost marker occurrence at or after `i` (the
/// length of `line` when there is none).
pub open spec fn first_marker(line: Seq<char>, tok: Seq<char>, i: int) -> int
    decreases line.len() - i,
{
    if i < 0 || i >= line.len() {
        line.len() as int
    } else if marker_at(line, tok, i) {
        i
    } else {
        first_marker(line, tok, i + 1)
    }
}

/// The name the leftmost marker occurrence captures: the maximal run of
/// word characters after the token and its optional whitespace.
pub open spec fn marker_name(line: Seq<char>, tok: Seq<char>) -> Seq<char> {
    let i = first_marker(line, tok, 0);
    let k = name_start(line, i + tok.len() as int);
    line.subrange(k, name_end(line, k))
}

/// The line opens the anchored region of this name.
pub open spec fn starts_anchor(line: Seq<char>, anchor: Seq<char>) -> bool {
    is_marker(line, start_tok()) && marker_name(line, start_tok()) == anchor
}

/// The line closes the anchored region of this name.
pub open spec fn ends_anchor(line: Seq<char>, anchor: Seq<char>) -> bool {
    is_marker(line, end_tok()) && marker_name(line, end_tok()) == anchor
}

/// The lines the scan retains while still looking for the start marker.
pub open spec fn searching_lines(ls: Seq<Seq<char>>, anchor: Seq<char>) -> Seq<Seq<char>>
    decreases ls.len(), 1int,
{
    if ls.len() == 0 {
        Seq::empty()
    } else if starts_anchor(ls[0], anchor) {
        capturing_lines(ls.skip(1), anchor)
    } else {
        searching_lines(ls.skip(1), anchor)
    }
}

/// The lines the scan retains once the start marker has been seen.
pub open spec fn capturing_lines(ls: Seq<Seq<char>>, anchor: Seq<char>) -> Seq<Seq<char>>
    decreases ls.len(), 0int,
{
    if ls.len() == 0 {
        Seq::empty()
    } else if is_marker(ls[0], end_tok()) {
        if marker_name(ls[0], end_tok()) == anchor {
            Seq::empty()
        } else {
            capturing_lines(ls.skip(1), anchor)
        }
    } else if is_marker(ls[0], start_tok()) {
        capturing_lines(ls.skip(1), anchor)
    } else {
        seq![ls[0]] + capturing_lines(ls.skip(1), anchor)
    }
}

/// What `take_anchored_lines` returns: the retained lines of `s`,
/// rejoined.
pub open spec fn take_anchored_spec(s: Seq<char>, anchor: Seq<char>) -> Seq<char> {
    join_lines(searching_lines(line_seq(s), anchor))
}

fn space_char(c: char) -> (b: bool)
    ensures
        b == is_space_char(c),
{
    c == ' ' || c == '\t' || c == '\r' || c == '\x0b' || c == '\x0c'
}

fn word_char(c: char) -> (b: bool)
    ensures
        b == is_word_char(c),
{
    ('a' <= c && c <= 'z') || ('A' <= c && c <= 'Z') || ('0' <= c && c <= '9') || c == '_' || c
        == '-'
}

pub proof fn lemma_name_start(line: Seq<char>, j: int)
    requires
        0 <= j <= line.len(),
    ensures
        j <= name_start(line, j) <= line.len(),
        forall|x: int| j <= x < name_start(line, j) ==> is_space_char(line[x]),
        name_start(line, j) < line.len() ==> !is_space_char(line[name_start(line, j)]),
    decreases line.len() - j,
{
    if j < line.len() && is_space_char(line[j]) {
        lemma_name_start(line, j + 1);
    }
}

pub proof fn lemma_name_end(line: Seq<char>, k: int)
    requires
        0 <= k <= line.len(),
    ensures
        k <= name_end(line, k) <= line.len(),
        forall|x: int| k <= x < name_end(line, k) ==> is_word_char(line[x]),
        name_end(line, k) < line.len() ==> !is_word_char(line[name_end(line, k)]),
    decreases line.len() - k,
{
    if k < line.len() && is_word_char(line[k]) {
        lemma_name_end(line, k + 1);
    }
}

/// The leftmost marker occurrence is the first position that carries one.
pub proof fn lemma_first_marker_is(line: Seq<char>, tok: Seq<char>, a: int, i: int)
    requires
        tok.len() >= 1,
        0 <= a <= i,
        marker_at(line, tok, i),
        forall|x: int| a <= x < i ==> !marker_at(line, tok, x),
    ensures
        first_marker(line, tok, a) == i,
    decreases i - a,
{
    assert(i + tok.len() <= line.len());
    if a < i {
        lemma_first_marker_is(line, tok, a + 1, i);
    }
}

/// Whether `tok` occurs in `line` at position `i`.
fn tok_match(line: &str, tok: &str, i: usize) -> (b: bool)
    requires
        i + tok@.len() <= line@.len(),
    ensures
        b == tok_at(line@, tok@, i as int),
{
    let n = line.unicode_len();
    let t = tok.unicode_len();
    let mut k: usize = 0;
    while k < t
        invariant
            k <= t,
            t == tok@.len(),
            n == line@.len(),
            i + t <= line@.len(),
            forall|x: int| 0 <= x < k ==> line@[i + x] == tok@[x],
        decreases t - k,
    {
        if line.get_char(i + k) != tok.get_char(k) {
            proof {
                if tok_at(line@, tok@, i as int) {
                    assert(line@.subrange(i as int, i + t)[k as int] == tok@[k as int]);
                }
            }
            return false;
        }
        k += 1;
    }
    proof {
        assert(line@.subrange(i as int, i + t) =~= tok@);
    }
    true
}

/// Scans `line` for the leftmost marker occurrence of `tok` and hands back
/// the captured anchor name.
fn find_marker(line: &str, tok: &str) -> (r: Option<String>)
    requires
        tok@.len() >= 1,
    ensures
        match r {
            Some(name) => is_marker(line@, tok@) && name@ == marker_name(line@, tok@),
            None => !is_marker(line@, tok@),
        },
{
    let n = line.unicode_len();
    let t = tok.unicode_len();
    if t > n {
        proof {
            assert forall|x: int| !marker_at(line@, tok@, x) by {}
        }
        return None;
    }
    let mut i: usize = 0;
    while i <= n - t
        invariant
            t >= 1,
            t <= n,
            i <= n - t + 1,
            n == line@.len(),
            t == tok@.len(),
            forall|x: int| 0 <= x < i ==> !marker_at(line@, tok@, x),
        decreases n - t - i + 1,
    {
        if tok_match(line, tok, i) {
            let mut j: usize = i + t;
            while j < n && space_char(line.get_char(j))
                invariant
                    i + t <= j <= n,
                    n == line@.len(),
                    forall|x: int| i + t <= x < j ==> is_space_char(line@[x]),
                decreases n - j,
            {
                j += 1;
            }
            proof {
                lemma_name_start(line@, i + t);
                let ns = name_start(line@, i + t);
                if ns < j {
                    assert(is_space_char(line@[ns]));
                } else if ns > j {
                    assert(is_space_char(line@[j as int]));
                }
                assert(ns == j as int);
            }
            if j < n && word_char(line.get_char(j)) {
                assert(marker_at(line@, tok@, i as int));
                let mut m: usize = j;
                while m < n && word_char(line.get_char(m))
                    invariant
                        j <= m <= n,
                        n == line@.len(),
                        forall|x: int| j <= x < m ==> is_word_char(line@[x]),
                    decreases n - m,
                {
                    m += 1;
                }
                proof {
                    lemma_name_end(line@, j as int);
                    let ne = name_end(line@, j as int);
                    if ne < m {
                        assert(is_word_char(line@[ne]));
                    } else if ne > m {
                        assert(is_word_char(line@[m as int]));
                    }
                    assert(ne == m as int);
                    lemma_first_marker_is(line@, tok@, 0, i as int);
                }
                let name = line.substring_char(j, m);
                return Some(String::from_str(name));
            }
        }
        i += 1;
    }
    proof {
        assert forall|x: int| !marker_at(line@, tok@, x) by {
            if 0 <= x <= n - t {
                assert(!marker_at(line@, tok@, x));
            }
        }
    }
    None
}

/// Whether two strings hold the same characters.
fn str_eq(x: &str, y: &str) -> (b: bool)
    ensures
        b == (x@ == y@),
{
    let n = x.unicode_len();
    if n != y.unicode_len() {
        return false;
    }
    let mut i: usize = 0;
    while i < n
        invariant
            i <= n,
            n == x@.len(),
            n == y@.len(),
            forall|k: int| 0 <= k < i ==> x@[k] == y@[k],
        decreases n - i,
    {
        if x.get_char(i) != y.get_char(i) {
            return false;
        }
        i += 1;
    }
    proof {
        assert(x@ =~= y@);
    }
    true
}

/// The scan's two working states, and the terminal state it enters at the
/// matching end marker.
enum ScanState {
    Searching,
    Capturing,
    Done,
}

/// Takes the lines of `s` strictly between the start marker carrying
/// `anchor` and the matching end marker, rejoined with single `'\n'`
/// separators and no trailing separator.
pub fn take_anchored_lines(s: &str, anchor: &str) -> (out: String)
    ensures
        out@ == take_anchored_spec(s@, anchor@),
{
    let ghost ls = line_seq(s@);
    let spans = line_spans(s);
    let mut retained: Vec<(usize, usize)> = Vec::new();
    let mut state = ScanState::Searching;
    let mut idx: usize = 0;
    proof {
        assert(ls.skip(0) =~= ls);
        assert(span_lines(s@, retained@) + searching_lines(ls, anchor@) =~= searching_lines(
            ls,
            anchor@,
        ));
    }
    while idx < spans.len()
        invariant
            idx <= spans@.len(),
            spans_ok(s@, spans@),
            spans_ok(s@, retained@),
            ls == line_seq(s@),
            span_lines(s@, spans@) == ls,
            searching_lines(ls, anchor@) == span_lines(s@, retained@) + match state {
                ScanState::Searching => searching_lines(ls.skip(idx as int), anchor@),
                ScanState::Capturing => capturing_lines(ls.skip(idx as int), anchor@),
                ScanState::Done => Seq::<Seq<char>>::empty(),
            },
        decreases spans@.len() - idx,
    {
        let (a, b) = spans[idx];
        let line = s.substring_char(a, b);
        proof {
            reveal_strlit("ANCHOR:");
            reveal_strlit("ANCHOR_END:");
            assert("ANCHOR:"@ =~= start_tok());
            assert("ANCHOR_END:"@ =~= end_tok());
            assert(line@ == ls[idx as int]);
            assert(ls.skip(idx as int)[0] == ls[idx as int]);
            assert(ls.skip(idx as int).skip(1) =~= ls.skip(idx + 1));
        }
        match state {
            ScanState::Searching => {
                if let Some(name) = find_marker(line, "ANCHOR:") {
                    if str_eq(name.as_str(), anchor) {
                        state = ScanState::Capturing;
                    }
                }
            },
            ScanState::Capturing => {
                match find_marker(line, "ANCHOR_END:") {
                    Some(name) => {
                        if str_eq(name.as_str(), anchor) {
                            state = ScanState::Done;
                        }
                    },
                    None => {
                        if find_marker(line, "ANCHOR:").is_none() {
                            proof {
                                crate::text::lemma_span_lines_push(s@, retained@, (a, b));
                                assert((span_lines(s@, retained@) + seq![ls[idx as int]])
                                    + capturing_lines(ls.skip(idx + 1), anchor@) =~= span_lines(
                                    s@,
                                    retained@,
                                ) + (seq![ls[idx as int]] + capturing_lines(
                                    ls.skip(idx + 1),
                                    anchor@,
                                )));
                            }
                            retained.push((a, b));
                        }
                    },
                }
            },
            ScanState::Done => {},
        }
        idx += 1;
    }
    proof {
        assert(ls.skip(idx as int) =~= Seq::<Seq<char>>::empty());
        assert(searching_lines(Seq::<Seq<char>>::empty(), anchor@) == Seq::<Seq<char>>::empty());
        assert(capturing_lines(Seq::<Seq<char>>::empty(), anchor@) == Seq::<Seq<char>>::empty());
        assert(span_lines(s@, retained@) + Seq::<Seq<char>>::empty() =~= span_lines(s@, retained@));
    }
    join_spans(s, &retained)
}

/// A name that never opens an anchored region anywhere in the text yields
/// the empty result.
pub proof fn lemma_unknown_anchor_empty(s: Seq<char>, anchor: Seq<char>)
    requires
        forall|i: int|
            0 <= i < line_seq(s).len() ==> !starts_anchor(#[trigger] line_seq(s)[i], anchor),
    ensures
        take_anchored_spec(s, anchor) == Seq::<char>::empty(),
{
    lemma_searching_unknown(line_seq(s), anchor);
}

proof fn lemma_searching_unknown(ls: Seq<Seq<char>>, anchor: Seq<char>)
    requires
        forall|i: int| 0 <= i < ls.len() ==> !starts_anchor(#[trigger] ls[i], anchor),
    ensures
        searching_lines(ls, anchor) == Seq::<Seq<char>>::empty(),
    decreases ls.len(),
{
    if ls.len() > 0 {
        assert(!starts_anchor(ls[0], anchor));
        assert forall|i: int|
            0 <= i < ls.skip(1).len() implies !starts_anchor(#[trigger] ls.skip(1)[i], anchor) by {
            assert(ls.skip(1)[i] == ls[i + 1]);
        }
        lemma_searching_unknown(ls.skip(1), anchor);
    }
}

/// Every retained line comes verbatim from the scanned lines, is not a
/// start-marker line for any name, and is not the end-marker line of the
/// requested name: marker lines are metadata and never part of the output.
pub proof fn lemma_searching_retains_content(ls: Seq<Seq<char>>, anchor: Seq<char>)
    ensures
        forall|i: int|
            0 <= i < searching_lines(ls, anchor).len() ==> ls.contains(
                #[trigger] searching_lines(ls, anchor)[i],
            ) && !is_marker(searching_lines(ls, anchor)[i], start_tok()) && !ends_anchor(
                searching_lines(ls, anchor)[i],
                anchor,
            ),
    decreases ls.len(), 1int,
{
    if ls.len() > 0 {
        let tail = ls.skip(1);
        if starts_anchor(ls[0], anchor) {
            lemma_capturing_retains_content(tail, anchor);
            assert(searching_lines(ls, anchor) == capturing_lines(tail, anchor));
        } else {
            lemma_searching_retains_content(tail, anchor);
            assert(searching_lines(ls, anchor) == searching_lines(tail, anchor));
        }
        assert forall|i: int|
            0 <= i < searching_lines(ls, anchor).len() implies ls.contains(
            #[trigger] searching_lines(ls, anchor)[i],
        ) && !is_marker(searching_lines(ls, anchor)[i], start_tok()) && !ends_anchor(
            searching_lines(ls, anchor)[i],
            anchor,
        ) by {
            let l = searching_lines(ls, anchor)[i];
            if starts_anchor(ls[0], anchor) {
                assert(l == capturing_lines(tail, anchor)[i]);
            } else {
                assert(l == searching_lines(tail, anchor)[i]);
            }
            assert(tail.contains(l));
            let j = choose|j: int| 0 <= j < tail.len() && tail[j] == l;
            assert(ls[j + 1] == l);
        }
    }
}

proof fn lemma_capturing_retains_content(ls: Seq<Seq<char>>, anchor: Seq<char>)
    ensures
        forall|i: int|
            0 <= i < capturing_lines(ls, anchor).len() ==> ls.contains(
                #[trigger] capturing_lines(ls, anchor)[i],
            ) && !is_marker(capturing_lines(ls, anchor)[i], start_tok()) && !ends_anchor(
                capturing_lines(ls, anchor)[i],
                anchor,
            ),
    decreases ls.len(), 0int,
{
    if ls.len() > 0 {
        let tail = ls.skip(1);
        let res = capturing_lines(ls, anchor);
        if is_marker(ls[0], end_tok()) && marker_name(ls[0], end_tok()) == anchor {
        } else {
            lemma_capturing_retains_content(tail, anchor);
            let keep_first = !is_marker(ls[0], end_tok()) && !is_marker(ls[0], start_tok());
            assert forall|i: int|
                0 <= i < res.len() implies ls.contains(#[trigger] res[i]) && !is_marker(
                res[i],
                start_tok(),
            ) && !ends_anchor(res[i], anchor) by {
                let l = res[i];
                if keep_first && i == 0 {
                    assert(l == ls[0]);
                    assert(ls.contains(l)) by {
                        assert(ls[0] == l);
                    }
                } else {
                    let l2 = if keep_first {
                        capturing_lines(tail, anchor)[i - 1]
                    } else {
                        capturing_lines(tail, anchor)[i]
                    };
                    assert(l == l2);
                    assert(tail.contains(l2));
                    let j = choose|j: int| 0 <= j < tail.len() && tail[j] == l2;
                    assert(ls[j + 1] == l2);
                }
            }
        }
    }
}

/// Extracting an anchored region is idempotent: running the range
/// extractor on the output with the full range returns it unchanged, as
/// long as the retained lines join cleanly (no retained line that another
/// retained line follows ends in `'\r'`, and the last of two or more
/// retained lines is not empty).
pub proof fn lemma_take_anchored_idempotent(s: Seq<char>, anchor: Seq<char>)
    requires
        joins_cleanly(searching_lines(line_seq(s), anchor)),
    ensures
        take_lines_spec(take_anchored_spec(s, anchor), full_range()) == take_anchored_spec(
            s,
            anchor,
        ),
{
    let ls = line_seq(s);
    let res = searching_lines(ls, anchor);
    lemma_line_seq_no_newline(s);
    lemma_searching_retains_content(ls, anchor);
    assert forall|i: int| 0 <= i < res.len() implies no_newline(#[trigger] res[i]) by {
        assert(ls.contains(res[i]));
        let j = choose|j: int| 0 <= j < ls.len() && ls[j] == res[i];
        assert(no_newline(ls[j]));
    }
    lemma_join_normalized(res);
    lemma_full_range_identity(join_lines(res));
}

} // verus!
