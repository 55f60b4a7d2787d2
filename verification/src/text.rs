//! The line model: how a text splits into lines and how kept lines are
//! joined back together.
//!
//! A text is a sequence of characters. It splits at each `'\n'`; a `'\r'`
//! standing immediately before a `'\n'` belongs to the line break and is
//! not part of the line. Content after the last `'\n'` is itself a line,
//! but a text ending in `'\n'` has no final empty line, and the empty text
//! has no lines at all. Joining puts a single `'\n'` between lines and adds
//! no trailing separator.

use vstd::prelude::*;
use vstd::string::*;

verus! {

/// Number of characters of `s` before its first `'\n'` (the whole length
/// when `s` has no newline).
pub open spec fn head_len(s: Seq<char>) -> nat
    decreases s.len(),
{
    if s.len() == 0 {
        0
    } else if s[0] == '\n' {
        0
    } else {
        1 + head_len(s.skip(1))
    }
}

pub proof fn lemma_head_len(s: Seq<char>)
    ensures
        head_len(s) <= s.len(),
        forall|i: int| 0 <= i < head_len(s) ==> s[i] != '\n',
        head_len(s) < s.len() ==> s[head_len(s) as int] == '\n',
    decreases s.len(),
{
    if s.len() == 0 {
    } else if s[0] == '\n' {
    } else {
        lemma_head_len(s.skip(1));
        assert forall|i: int| 0 <= i < head_len(s) implies s[i] != '\n' by {
            if i > 0 {
                assert(s.skip(1)[i - 1] == s[i]);
            }
        }
        if head_len(s) < s.len() {
            assert(s.skip(1)[head_len(s) - 1] == s[head_len(s) as int]);
        }
    }
}

/// A line piece with the `'\r'` of a `"\r\n"` line break removed.
pub open spec fn chomp_cr(p: Seq<char>) -> Seq<char> {
    if p.len() > 0 && p[p.len() - 1] == '\r' {
        p.take(p.len() - 1)
    } else {
        p
    }
}

/// The lines of `s`, in order.
pub open spec fn line_seq(s: Seq<char>) -> Seq<Seq<char>>
    decreases s.len(),
{
    if s.len() == 0 {
        Seq::empty()
    } else {
        let h = head_len(s) as int;
        if h >= s.len() {
            seq![s]
        } else {
            seq![chomp_cr(s.take(h))] + line_seq(s.skip(h + 1))
        }
    }
}

/// Lines interleaved with single `'\n'` separators, no trailing separator.
pub open spec fn join_lines(ls: Seq<Seq<char>>) -> Seq<char>
    decreases ls.len(),
{
    if ls.len() == 0 {
        Seq::empty()
    } else if ls.len() == 1 {
        ls[0]
    } else {
        ls[0] + seq!['\n'] + join_lines(ls.skip(1))
    }
}

/// A text whose line breaks are plain `'\n'` and which does not end in a
/// line break: splitting such a text into lines and rejoining them gives
/// the text back unchanged.
pub open spec fn normalized_text(s: Seq<char>) -> bool {
    (forall|i: int| 0 < i < s.len() && #[trigger] s[i] == '\n' ==> s[i - 1] != '\r') && (s.len()
        > 0 ==> s[s.len() - 1] != '\n')
}

/// The line holds no line break of its own.
pub open spec fn no_newline(l: Seq<char>) -> bool {
    forall|j: int| 0 <= j < l.len() ==> l[j] != '\n'
}

/// Joining these lines loses nothing when they are split again: no line
/// that another line follows ends in `'\r'` (which the splitter would eat
/// as part of a `"\r\n"` break), and the last of two or more lines is not
/// empty (a trailing empty line vanishes when the joined text is split).
pub open spec fn joins_cleanly(ls: Seq<Seq<char>>) -> bool {
    (forall|i: int|
        0 <= i < ls.len() - 1 && (#[trigger] ls[i]).len() > 0 ==> ls[i][ls[i].len() - 1] != '\r')
        && (ls.len() >= 2 ==> ls[ls.len() - 1].len() > 0)
}

/// Each line of a text is free of line breaks.
pub proof fn lemma_line_seq_no_newline(s: Seq<char>)
    ensures
        forall|i: int| 0 <= i < line_seq(s).len() ==> no_newline(#[trigger] line_seq(s)[i]),
    decreases s.len(),
{
    lemma_head_len(s);
    if s.len() == 0 {
    } else {
        let h = head_len(s) as int;
        if h >= s.len() {
            assert(no_newline(s));
        } else {
            lemma_line_seq_no_newline(s.skip(h + 1));
            let first = chomp_cr(s.take(h));
            assert(no_newline(first)) by {
                assert forall|j: int| 0 <= j < first.len() implies first[j] != '\n' by {
                    assert(first[j] == s[j]);
                }
            }
            assert forall|i: int| 0 <= i < line_seq(s).len() implies no_newline(
                #[trigger] line_seq(s)[i],
            ) by {
                if i >= 1 {
                    assert(line_seq(s)[i] == line_seq(s.skip(h + 1))[i - 1]);
                }
            }
        }
    }
}

/// Splitting a normalized text into lines and rejoining them is the
/// identity.
pub proof fn lemma_lines_roundtrip(s: Seq<char>)
    requires
        normalized_text(s),
    ensures
        join_lines(line_seq(s)) == s,
    decreases s.len(),
{
    lemma_head_len(s);
    if s.len() == 0 {
    } else {
        let h = head_len(s) as int;
        if h >= s.len() {
        } else {
            let rest = s.skip(h + 1);
            assert(s[h] == '\n');
            assert(normalized_text(rest)) by {
                assert forall|i: int|
                    0 < i < rest.len() && #[trigger] rest[i] == '\n' implies rest[i - 1] != '\r' by {
                    assert(rest[i] == s[h + 1 + i]);
                    assert(rest[i - 1] == s[h + i]);
                }
                if rest.len() > 0 {
                    assert(rest[rest.len() - 1] == s[s.len() - 1]);
                }
            }
            assert(rest.len() > 0) by {
                if rest.len() == 0 {
                    assert(s[s.len() - 1] == '\n');
                }
            }
            lemma_lines_roundtrip(rest);
            assert(chomp_cr(s.take(h)) == s.take(h)) by {
                if h > 0 && s.take(h)[h - 1] == '\r' {
                    assert(s[h - 1] == '\r');
                }
            }
            assert(line_seq(rest).len() >= 1);
            let ls2 = seq![s.take(h)] + line_seq(rest);
            assert(line_seq(s) == ls2);
            assert(ls2.skip(1) =~= line_seq(rest));
            assert(join_lines(ls2) == s.take(h) + seq!['\n'] + join_lines(line_seq(rest)));
            assert(s.take(h) + seq!['\n'] + rest =~= s);
        }
    }
}

/// Joining break-free lines that join cleanly yields a normalized text.
pub proof fn lemma_join_normalized(ls: Seq<Seq<char>>)
    requires
        forall|i: int| 0 <= i < ls.len() ==> no_newline(#[trigger] ls[i]),
        joins_cleanly(ls),
    ensures
        normalized_text(join_lines(ls)),
    decreases ls.len(),
{
    if ls.len() == 0 {
    } else if ls.len() == 1 {
        let j = join_lines(ls);
        assert(j == ls[0]);
        assert(no_newline(ls[0]));
        assert(normalized_text(j)) by {
            assert forall|i: int| 0 < i < j.len() && #[trigger] j[i] == '\n' implies j[i - 1]
                != '\r' by {}
        }
    } else {
        let tail = ls.skip(1);
        assert forall|i: int| 0 <= i < tail.len() implies no_newline(#[trigger] tail[i]) by {
            assert(tail[i] == ls[i + 1]);
        }
        assert(joins_cleanly(tail)) by {
            assert forall|i: int|
                0 <= i < tail.len() - 1 && (#[trigger] tail[i]).len() > 0 implies tail[i][tail[i].len()
                - 1] != '\r' by {
                assert(tail[i] == ls[i + 1]);
            }
            if tail.len() >= 2 {
                assert(tail[tail.len() - 1] == ls[ls.len() - 1]);
            }
        }
        lemma_join_normalized(tail);
        let t = join_lines(tail);
        assert(t.len() > 0) by {
            if tail.len() == 1 {
                assert(t == tail[0]);
                assert(tail[0] == ls[ls.len() - 1]);
            } else {
                assert(t == tail[0] + seq!['\n'] + join_lines(tail.skip(1)));
            }
        }
        let a = ls[0].len() as int;
        let j = ls[0] + seq!['\n'] + join_lines(tail);
        assert(join_lines(ls) == j);
        assert(normalized_text(j)) by {
            assert forall|i: int| 0 < i < j.len() && #[trigger] j[i] == '\n' implies j[i - 1]
                != '\r' by {
                if i < a {
                    assert(j[i] == ls[0][i]);
                    assert(no_newline(ls[0]));
                } else if i == a {
                    assert(j[i - 1] == ls[0][i - 1]);
                    assert(ls[0].len() > 0);
                } else {
                    assert(j[i] == t[i - a - 1]);
                    if i - a - 1 > 0 {
                        assert(j[i - 1] == t[i - a - 2]);
                    } else {
                        assert(j[i - 1] == '\n');
                    }
                }
            }
            assert(j[j.len() - 1] == t[t.len() - 1]);
        }
    }
}

/// A span `(a, b)` stands for the characters `[a, b)` of the scanned text.
pub open spec fn span_lines(s: Seq<char>, spans: Seq<(usize, usize)>) -> Seq<Seq<char>> {
    spans.map(|i: int, sp: (usize, usize)| s.subrange(sp.0 as int, sp.1 as int))
}

pub open spec fn spans_ok(s: Seq<char>, spans: Seq<(usize, usize)>) -> bool {
    forall|i: int| 0 <= i < spans.len() ==> #[trigger] spans[i].0 <= spans[i].1 <= s.len()
}

pub proof fn lemma_span_lines_push(s: Seq<char>, spans: Seq<(usize, usize)>, sp: (usize, usize))
    ensures
        span_lines(s, spans.push(sp)) == span_lines(s, spans) + seq![
            s.subrange(sp.0 as int, sp.1 as int),
        ],
{
    assert(span_lines(s, spans.push(sp)) =~= span_lines(s, spans) + seq![
        s.subrange(sp.0 as int, sp.1 as int),
    ]);
}

/// Appending one more line to a non-empty sequence appends a separator and
/// that line to the joined text.
pub proof fn lemma_join_push(ls: Seq<Seq<char>>, x: Seq<char>)
    requires
        ls.len() >= 1,
    ensures
        join_lines(ls.push(x)) == join_lines(ls) + seq!['\n'] + x,
    decreases ls.len(),
{
    if ls.len() == 1 {
        assert(ls.push(x).skip(1) =~= seq![x]);
        assert(join_lines(seq![x]) == x);
        assert(join_lines(ls.push(x)) == ls[0] + seq!['\n'] + x);
        assert(join_lines(ls) + seq!['\n'] + x == ls[0] + seq!['\n'] + x);
    } else {
        lemma_join_push(ls.skip(1), x);
        assert(ls.push(x).skip(1) =~= ls.skip(1).push(x));
        assert(join_lines(ls.push(x)) == ls[0] + seq!['\n'] + (join_lines(ls.skip(1)) + seq![
            '\n',
        ] + x));
        assert(ls[0] + seq!['\n'] + (join_lines(ls.skip(1)) + seq!['\n'] + x) =~= (ls[0] + seq![
            '\n',
        ] + join_lines(ls.skip(1))) + seq!['\n'] + x);
    }
}

/// Splits a text into the spans of its lines.
pub fn line_spans(s: &str) -> (spans: Vec<(usize, usize)>)
    ensures
        spans_ok(s@, spans@),
        span_lines(s@, spans@) == line_seq(s@),
{
    let n = s.unicode_len();
    let mut spans: Vec<(usize, usize)> = Vec::new();
    let mut i: usize = 0;
    proof {
        assert(s@.skip(0) =~= s@);
        assert(span_lines(s@, spans@) + line_seq(s@) =~= line_seq(s@));
    }
    while i < n
        invariant
            i <= n,
            n == s@.len(),
            spans_ok(s@, spans@),
            line_seq(s@) == span_lines(s@, spans@) + line_seq(s@.skip(i as int)),
        decreases n - i,
    {
        let ghost t = s@.skip(i as int);
        let mut j: usize = i;
        while j < n && s.get_char(j) != '\n'
            invariant
                i <= j <= n,
                n == s@.len(),
                forall|k: int| i <= k < j ==> s@[k] != '\n',
            decreases n - j,
        {
            j += 1;
        }
        proof {
            lemma_head_len(t);
            assert forall|x: int| 0 <= x < j - i implies t[x] != '\n' by {
                assert(t[x] == s@[i + x]);
            }
            if j < n {
                assert(t[j - i] == s@[j as int]);
            }
            assert(head_len(t) == (j - i) as nat) by {
                if head_len(t) < j - i {
                    assert(t[head_len(t) as int] != '\n');
                } else if head_len(t) > j - i {
                    assert(j < n);
                    assert(t[j - i] == '\n');
                }
            }
        }
        if j < n {
            let end = if j > i && s.get_char(j - 1) == '\r' {
                j - 1
            } else {
                j
            };
            proof {
                let piece = chomp_cr(t.take((j - i) as int));
                assert(t.take((j - i) as int) =~= s@.subrange(i as int, j as int));
                if j > i && s@[j - 1] == '\r' {
                    assert(s@.subrange(i as int, j as int)[j - i - 1] == s@[j - 1]);
                    assert(piece =~= s@.subrange(i as int, end as int));
                } else {
                    if j > i {
                        assert(s@.subrange(i as int, j as int)[j - i - 1] == s@[j - 1]);
                    }
                    assert(piece =~= s@.subrange(i as int, end as int));
                }
                assert(t.skip((j - i) as int + 1) =~= s@.skip(j + 1));
                assert(line_seq(t) == seq![piece] + line_seq(s@.skip(j + 1)));
                lemma_span_lines_push(s@, spans@, (i, end));
                assert(span_lines(s@, spans@.push((i, end))) + line_seq(s@.skip(j + 1))
                    =~= span_lines(s@, spans@) + line_seq(t));
            }
            spans.push((i, end));
            i = j + 1;
        } else {
            proof {
                assert(t =~= s@.subrange(i as int, j as int));
                assert(line_seq(t) == seq![t]);
                lemma_span_lines_push(s@, spans@, (i, j));
                assert(span_lines(s@, spans@.push((i, j))) + line_seq(s@.skip(j as int))
                    =~= span_lines(s@, spans@) + line_seq(t));
            }
            spans.push((i, j));
            i = j;
        }
    }
    proof {
        assert(s@.skip(i as int) =~= Seq::<char>::empty());
        assert(span_lines(s@, spans@) + line_seq(s@.skip(i as int)) =~= span_lines(s@, spans@));
    }
    spans
}

/// Joins the given line spans of a text with single `'\n'` separators.
pub fn join_spans(s: &str, spans: &Vec<(usize, usize)>) -> (out: String)
    requires
        spans_ok(s@, spans@),
    ensures
        out@ == join_lines(span_lines(s@, spans@)),
{
    let ghost all = span_lines(s@, spans@);
    let mut out = String::new();
    let mut k: usize = 0;
    while k < spans.len()
        invariant
            k <= spans@.len(),
            spans_ok(s@, spans@),
            all == span_lines(s@, spans@),
            out@ == join_lines(all.take(k as int)),
        decreases spans@.len() - k,
    {
        let (a, b) = spans[k];
        let piece = s.substring_char(a, b);
        if k > 0 {
            out.append("\n");
        }
        out.append(piece);
        proof {
            reveal_strlit("\n");
            assert("\n"@ =~= seq!['\n']);
            assert(all.take(k as int).push(all[k as int]) =~= all.take(k + 1));
            assert(piece@ == all[k as int]);
            if k > 0 {
                lemma_join_push(all.take(k as int), all[k as int]);
            } else {
                assert(all.take(1) =~= seq![all[0]]);
            }
        }
        k += 1;
    }
    proof {
        assert(all.take(spans@.len() as int) =~= all);
    }
    out
}

} // verus!
