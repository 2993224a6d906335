use tailr::cat::LineNumbering;

#[test]
fn numbers_every_line() {
    let mut n = LineNumbering::new(true, false);
    assert_eq!(n.render("one"), "     1\tone");
    assert_eq!(n.render(""), "     2\t");
    assert_eq!(n.render("three"), "     3\tthree");
    assert_eq!(n.line_number(), 3);
}

#[test]
fn numbers_nonblank_lines() {
    let mut n = LineNumbering::new(false, true);
    assert_eq!(n.render("one"), "     1\tone");
    assert_eq!(n.render(" \t"), "");
    assert_eq!(n.render("two"), "     2\ttwo");
}

#[test]
fn plain_lines_pass_through() {
    let mut n = LineNumbering::new(false, false);
    assert_eq!(n.render("  x "), "  x ");
    assert_eq!(n.render(""), "");
}
