use snippets::{take_anchored_lines, take_lines, LineBound, LineRange};

fn r(start: LineBound, end: LineBound) -> LineRange {
    LineRange { start, end }
}

fn inc(n: usize) -> LineBound {
    LineBound::Included(n)
}

fn exc(n: usize) -> LineBound {
    LineBound::Excluded(n)
}

fn unb() -> LineBound {
    LineBound::Unbounded
}

#[test]
fn take_lines_test() {
    let s = "Lorem\nipsum\ndolor\nsit\namet";
    assert_eq!(take_lines(s, r(inc(1), exc(3))), "ipsum\ndolor");
    assert_eq!(take_lines(s, r(inc(3), unb())), "sit\namet");
    assert_eq!(take_lines(s, r(unb(), exc(3))), "Lorem\nipsum\ndolor");
    assert_eq!(take_lines(s, r(unb(), unb())), s);
    // corner cases
    assert_eq!(take_lines(s, r(inc(4), exc(3))), "");
    assert_eq!(take_lines(s, r(unb(), exc(100))), s);
}

#[test]
fn take_anchored_lines_test() {
    let s = "Lorem\nipsum\ndolor\nsit\namet";
    assert_eq!(take_anchored_lines(s, "test"), "");

    let s = "Lorem\nipsum\ndolor\nANCHOR_END: test\nsit\namet";
    assert_eq!(take_anchored_lines(s, "test"), "");

    let s = "Lorem\nipsum\nANCHOR: test\ndolor\nsit\namet";
    assert_eq!(take_anchored_lines(s, "test"), "dolor\nsit\namet");
    assert_eq!(take_anchored_lines(s, "something"), "");

    let s = "Lorem\nipsum\nANCHOR: test\ndolor\nsit\namet\nANCHOR_END: test\nlorem\nipsum";
    assert_eq!(take_anchored_lines(s, "test"), "dolor\nsit\namet");
    assert_eq!(take_anchored_lines(s, "something"), "");

    let s = "Lorem\nANCHOR: test\nipsum\nANCHOR: test\ndolor\nsit\namet\nANCHOR_END: test\nlorem\nipsum";
    assert_eq!(take_anchored_lines(s, "test"), "ipsum\ndolor\nsit\namet");
    assert_eq!(take_anchored_lines(s, "something"), "");

    let s = "Lorem\nANCHOR:    test2\nipsum\nANCHOR: test\ndolor\nsit\namet\nANCHOR_END: test\nlorem\nANCHOR_END:test2\nipsum";
    assert_eq!(
        take_anchored_lines(s, "test2"),
        "ipsum\ndolor\nsit\namet\nlorem"
    );
    assert_eq!(take_anchored_lines(s, "test"), "dolor\nsit\namet");
    assert_eq!(take_anchored_lines(s, "something"), "");
}

#[test]
fn take_lines_included_end() {
    let s = "Lorem\nipsum\ndolor\nsit\namet";
    assert_eq!(take_lines(s, r(unb(), inc(2))), "Lorem\nipsum\ndolor");
    assert_eq!(take_lines(s, r(inc(1), inc(1))), "ipsum");
    assert_eq!(take_lines(s, r(inc(2), inc(100))), "dolor\nsit\namet");
}

#[test]
fn take_lines_excluded_start() {
    let s = "Lorem\nipsum\ndolor\nsit\namet";
    assert_eq!(take_lines(s, r(exc(1), unb())), "dolor\nsit\namet");
    assert_eq!(take_lines(s, r(exc(0), exc(2))), "ipsum");
}

#[test]
fn take_lines_empty_text() {
    assert_eq!(take_lines("", r(unb(), unb())), "");
    assert_eq!(take_lines("", r(inc(0), exc(5))), "");
}

#[test]
fn take_lines_start_past_end() {
    let s = "Lorem\nipsum";
    assert_eq!(take_lines(s, r(inc(10), unb())), "");
    assert_eq!(take_lines(s, r(inc(2), unb())), "");
}

#[test]
fn take_lines_line_breaks() {
    // A trailing newline opens no extra line, and "\r\n" breaks lines too.
    assert_eq!(take_lines("alpha\nbeta\n", r(unb(), unb())), "alpha\nbeta");
    assert_eq!(take_lines("alpha\r\nbeta", r(unb(), unb())), "alpha\nbeta");
    assert_eq!(take_lines("alpha\r\nbeta\r\n", r(inc(1), unb())), "beta");
}

#[test]
fn take_lines_rerun_on_own_output() {
    let s = "Lorem\nipsum\ndolor\nsit\namet";
    let out = take_lines(s, r(inc(1), exc(4)));
    assert_eq!(take_lines(&out, r(unb(), unb())), out);
}

#[test]
fn take_anchored_lines_rerun_on_own_output() {
    let s = "Lorem\nipsum\nANCHOR: test\ndolor\nsit\namet\nANCHOR_END: test\nlorem";
    let out = take_anchored_lines(s, "test");
    assert_eq!(take_lines(&out, r(unb(), unb())), out);
}

#[test]
fn take_anchored_lines_marker_in_content() {
    // Markers are found anywhere in a line, as in commented-out code.
    let s = "fn a() {}\n// ANCHOR: part\nfn b() {}\n// ANCHOR_END: part\nfn c() {}";
    assert_eq!(take_anchored_lines(s, "part"), "fn b() {}");
}

#[test]
fn take_anchored_lines_suppresses_inner_start_markers() {
    // A start marker of any name inside a capture is dropped, and the
    // capture neither stops nor restarts.
    let s = "ANCHOR: outer\none\nANCHOR: inner\ntwo\nANCHOR: outer\nthree\nANCHOR_END: outer";
    assert_eq!(take_anchored_lines(s, "outer"), "one\ntwo\nthree");
}

#[test]
fn take_anchored_lines_empty_text() {
    assert_eq!(take_anchored_lines("", "test"), "");
}

#[test]
fn take_anchored_lines_hyphen_and_digits() {
    let s = "ANCHOR: part-2_b\nkept\nANCHOR_END: part-2_b\ndropped";
    assert_eq!(take_anchored_lines(s, "part-2_b"), "kept");
}

#[test]
fn take_anchored_lines_marker_without_name_is_content() {
    // A token without a following name is no marker line at all.
    let s = "ANCHOR: test\nANCHOR_END:   \nANCHOR_END: !!\nANCHOR_END: test\nrest";
    assert_eq!(take_anchored_lines(s, "test"), "ANCHOR_END:   \nANCHOR_END: !!");
}
