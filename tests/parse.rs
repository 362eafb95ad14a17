use regexp_parser::{parse, Error, Regexp};

fn dump_ok(s: &str) -> String {
    let result = parse(s);
    assert!(result.is_ok());
    result.unwrap().dump()
}

fn lit(c: char) -> Regexp {
    Regexp::Literal(c)
}

#[test]
fn test_parse() {
    assert_eq!(dump_ok(""), "emp{}");
    assert_eq!(dump_ok("a"), "lit{a}");
    assert_eq!(dump_ok("ab"), "cat{lit{a}lit{b}}");
    assert_eq!(dump_ok("a|b"), "alt{lit{a}lit{b}}");
    assert_eq!(dump_ok("a*"), "star{lit{a}}");
    assert_eq!(dump_ok("a+"), "plus{lit{a}}");
    assert_eq!(dump_ok("a?"), "que{lit{a}}");
    assert_eq!(dump_ok("(a)"), "cap{lit{a}}");
}

#[test]
fn same_input_same_tree() {
    assert_eq!(parse("(a|b)*c"), parse("(a|b)*c"));
    assert_eq!(parse("(("), parse("(("));
}

#[test]
fn empty_pattern() {
    assert_eq!(parse(""), Ok(Regexp::Empty));
}

#[test]
fn single_literal() {
    assert_eq!(parse("a"), Ok(lit('a')));
}

#[test]
fn two_literals_concatenate() {
    assert_eq!(parse("ab"), Ok(Regexp::Concat(vec![lit('a'), lit('b')])));
}

#[test]
fn alternation_is_flat() {
    assert_eq!(parse("a|b|c"), Ok(Regexp::Alternate(vec![lit('a'), lit('b'), lit('c')])));
    assert_eq!(dump_ok("a|b|c|d"), "alt{lit{a}lit{b}lit{c}lit{d}}");
}

#[test]
fn repetition_operators() {
    assert_eq!(parse("a*"), Ok(Regexp::Star(Box::new(lit('a')))));
    assert_eq!(parse("a+"), Ok(Regexp::Plus(Box::new(lit('a')))));
    assert_eq!(parse("a?"), Ok(Regexp::Quest(Box::new(lit('a')))));
}

#[test]
fn single_group() {
    assert_eq!(parse("(a)"), Ok(Regexp::Capture(1, Box::new(lit('a')))));
}

#[test]
fn capture_indices_follow_open_parens() {
    let inner = Regexp::Concat(vec![
        Regexp::Capture(2, Box::new(lit('a'))),
        Regexp::Capture(3, Box::new(lit('b'))),
    ]);
    assert_eq!(parse("((a)(b))"), Ok(Regexp::Capture(1, Box::new(inner))));
}

#[test]
fn group_with_alternation_then_literal() {
    let group = Regexp::Capture(1, Box::new(Regexp::Alternate(vec![lit('a'), lit('b')])));
    assert_eq!(parse("(a|b)c"), Ok(Regexp::Concat(vec![group, lit('c')])));
}

#[test]
fn nested_repetition_is_kept() {
    assert_eq!(parse("a**"), Ok(Regexp::Star(Box::new(Regexp::Star(Box::new(lit('a')))))));
    assert_eq!(dump_ok("a+?"), "que{plus{lit{a}}}");
}

#[test]
fn unbalanced_parens() {
    assert_eq!(parse("("), Err(Error::MissingParen));
    assert_eq!(parse(")"), Err(Error::MissingParen));
    assert_eq!(parse("(a"), Err(Error::MissingParen));
    assert_eq!(parse("a)"), Err(Error::MissingParen));
    assert_eq!(parse("(a|b"), Err(Error::MissingParen));
    assert_eq!(parse("a|b)"), Err(Error::MissingParen));
    assert_eq!(parse("(a))"), Err(Error::MissingParen));
}

#[test]
fn repeat_without_argument() {
    assert_eq!(parse("*"), Err(Error::RepeatArgument));
    assert_eq!(parse("|*"), Err(Error::RepeatArgument));
    assert_eq!(parse("a|+"), Err(Error::RepeatArgument));
    assert_eq!(parse("(?"), Err(Error::RepeatArgument));
}

#[test]
fn first_error_wins() {
    assert_eq!(parse("*)"), Err(Error::RepeatArgument));
    assert_eq!(parse(")*"), Err(Error::MissingParen));
}

#[test]
fn no_singleton_wrappers() {
    assert_eq!(parse("(ab)"), Ok(Regexp::Capture(1, Box::new(Regexp::Concat(vec![lit('a'), lit('b')])))));
    assert_eq!(dump_ok("a|bc"), "alt{lit{a}cat{lit{b}lit{c}}}");
    assert_eq!(dump_ok("((a))"), "cap{cap{lit{a}}}");
}

#[test]
fn degenerate_alternations() {
    assert_eq!(parse("()"), Ok(Regexp::Capture(1, Box::new(Regexp::Empty))));
    assert_eq!(dump_ok("(|)"), "cap{alt{emp{}emp{}}}");
    assert_eq!(dump_ok("||"), "alt{emp{}emp{}emp{}}");
    assert_eq!(dump_ok("a|"), "alt{lit{a}emp{}}");
    assert_eq!(dump_ok("|a"), "alt{emp{}lit{a}}");
}

#[test]
fn one_literal_per_scalar_value() {
    assert_eq!(parse("é"), Ok(lit('é')));
    assert_eq!(dump_ok("日本"), "cat{lit{日}lit{本}}");
}

#[test]
fn names_of_kinds() {
    assert_eq!(Regexp::Empty.name(), "emp");
    assert_eq!(lit('x').name(), "lit");
    assert_eq!(Regexp::Capture(4, Box::new(Regexp::Empty)).name(), "cap");
    assert_eq!(Regexp::VerticalBar.name(), "");
}

#[test]
fn sentinel_predicates() {
    assert!(Regexp::LeftParen(1).is_marker());
    assert!(Regexp::VerticalBar.is_marker());
    assert!(!lit('a').is_marker());
    assert!(Regexp::LeftParen(2).is_left_paren());
    assert!(!Regexp::VerticalBar.is_left_paren());
    assert!(Regexp::VerticalBar.is_vertical_bar());
    assert!(!Regexp::Empty.is_vertical_bar());
}

#[test]
fn dump_writes_the_literal_character() {
    assert_eq!(dump_ok("z"), "lit{z}");
    assert_eq!(dump_ok("(x)*"), "star{cap{lit{x}}}");
}
