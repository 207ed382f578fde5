use org_links::{parse_line, Link};

fn link(target: &str) -> Link {
    Link { link: Some(target.to_string()), description: None }
}

fn link_desc(target: &str, description: &str) -> Link {
    Link { link: Some(target.to_string()), description: Some(description.to_string()) }
}

#[test]
fn correctly_parsed() {
    let line_to_parse = "*** [[#examp_3le][p3]] dumplings, [[www.best-sauce.com][p34]] [[#anothr][pretty54]] [[alonelink]]";

    let expected_output: Vec<Link> = vec![
        Link { link: Some("#examp_3le".to_string()), description: Some("p3".to_string()) },
        Link {
            link: Some("www.best-sauce.com".to_string()),
            description: Some("p34".to_string()),
        },
        Link { link: Some("#anothr".to_string()), description: Some("pretty54".to_string()) },
        Link { link: Some("alonelink".to_string()), description: None },
    ];

    assert_eq!(parse_line(line_to_parse), expected_output);
}

#[test]
fn no_links() {
    assert_eq!(parse_line("plain text with no brackets"), Vec::<Link>::new());
}

#[test]
fn empty_input() {
    assert_eq!(parse_line(""), Vec::<Link>::new());
}

#[test]
fn target_only_link_at_start() {
    assert_eq!(parse_line("[[forum.com]]"), vec![link("forum.com")]);
}

#[test]
fn stray_brackets_ignored() {
    assert_eq!(parse_line("a ] b [[x][y]] c ]] d [["), vec![link_desc("x", "y")]);
}

#[test]
fn adjacent_links_no_separator_text() {
    assert_eq!(parse_line("[[a][b]][[c]]"), vec![link_desc("a", "b"), link("c")]);
}

#[test]
fn empty_body() {
    assert_eq!(parse_line("[[]]"), vec![link("")]);
}

#[test]
fn empty_target_and_empty_description() {
    assert_eq!(parse_line("[[][]]"), vec![link_desc("", "")]);
}

#[test]
fn overlapping_open_last_pair_wins() {
    assert_eq!(parse_line("[[[x]]"), vec![link("x")]);
}

#[test]
fn triple_close_trailing_bracket_ignored() {
    assert_eq!(parse_line("[[x]]]"), vec![link("x")]);
}

#[test]
fn unterminated_open_emits_nothing() {
    assert_eq!(parse_line("start [[x"), Vec::<Link>::new());
}

#[test]
fn stray_close_before_open_emits_nothing() {
    assert_eq!(parse_line("a]]b[[c"), Vec::<Link>::new());
}

#[test]
fn close_at_line_start_is_safe() {
    assert_eq!(parse_line("]] [[x]]"), vec![link("x")]);
}

#[test]
fn multiple_separators_keep_first_two_segments() {
    assert_eq!(parse_line("[[a][b][c]]"), vec![link_desc("a", "b")]);
}

#[test]
fn non_ascii_characters_preserved() {
    assert_eq!(
        parse_line("préfix [[čarå][déscr]] sufî"),
        vec![link_desc("čarå", "déscr")]
    );
}

#[test]
fn order_follows_opening_brackets() {
    let out = parse_line("[[one]] mid [[two][2]] end [[three]]");
    assert_eq!(out, vec![link("one"), link_desc("two", "2"), link("three")]);
}

#[test]
fn concatenation_of_complete_lines() {
    let a = "x [[a]] y";
    let b = "[[b][c]] z";
    let mut both = parse_line(a);
    both.extend(parse_line(b));
    let joined = format!("{}{}", a, b);
    assert_eq!(parse_line(&joined), both);
}

#[test]
fn blanking_filler_keeps_records() {
    let noisy = "** [[a][b]] -- [[c]] !!";
    let blanked = "   [[a][b]]    [[c]]   ";
    assert_eq!(parse_line(noisy), parse_line(blanked));
    assert_eq!(parse_line(noisy), vec![link_desc("a", "b"), link("c")]);
}

#[test]
fn filler_text_does_not_affect_records() {
    let one = "aaa [[t][d]] bbb";
    let two = "[[t][d]]";
    assert_eq!(parse_line(one), parse_line(two));
}

#[test]
fn repeated_links_are_not_deduplicated() {
    assert_eq!(parse_line("[[a]] and [[a]]"), vec![link("a"), link("a")]);
}

#[test]
fn record_equality_is_structural() {
    assert_eq!(link_desc("a", "b"), link_desc("a", "b"));
    assert_ne!(link_desc("a", "b"), link("a"));
    assert_ne!(link(""), link_desc("", ""));
}
