use malachi::errors::{FilterError, RuleError};
use malachi::{Command, Error, Match};

fn once(s: &str) -> Match<'_> {
    Match::Once(s)
}

fn many<'a>(v: &[&'a str]) -> Match<'a> {
    Match::Many(v.to_vec())
}

#[test]
fn test_compile() {
    let tests = &[
        r".bet <amount>",
        r".bible
[
	<book?: starts(`book=`)>
	<chapter?: starts(`chapter=`); starts(`chap=`)>
	<verse?: starts(`verse=`)>
]",
        r"no capture here!",
        r"<maybe-prefix?> bar",
    ];
    for s in tests {
        Command::new(s).unwrap();
    }
}

fn check(src: &str, cases: Vec<(&str, Vec<(&str, Match)>, &str)>) {
    let cmd = Command::new(src).unwrap_or_else(|e| panic!("error: {:?}", e));
    for (input, expected, rest) in cases {
        let got = cmd
            .get_matches(input)
            .unwrap_or_else(|| panic!("returned none:\n{}", input));
        assert_eq!(rest, got.rest, "trailing match is not equal");
        for (key, val) in expected {
            assert_eq!(Some(&val), got.get(key));
        }
    }
}

#[test]
fn match_succeed() {
    check(
        ".bet <amount>",
        vec![
            (".bet 42", vec![("amount", once("42"))], ""),
            (".bet -42\t", vec![("amount", once("-42"))], "\t"),
            (".bet\nasdf\nnice", vec![("amount", once("asdf"))], "\nnice"),
        ],
    );
    check(
        r".run
<flags*: starts(`--`)>
<code:
	starts('```'), ends('```');
	starts('`'), ends('`');
>",
        vec![
            (
                ".run --debug `banana`",
                vec![("flags", many(&["debug"])), ("code", once("banana"))],
                "",
            ),
            (
                ".run --1 --2 --3 ```\nmultiline\n```\ntrailing",
                vec![("flags", many(&["1", "2", "3"])), ("code", once("\nmultiline\n"))],
                "\ntrailing",
            ),
            (".run `bar`", vec![("code", once("bar"))], ""),
        ],
    );
    check(
        "?note [
	<oldest?: `!oldest`, nocase()>
	<tags*: starts(`-`, `+`)>
	<name>]",
        vec![
            (
                "?note -tag1 -tag2 banana",
                vec![("tags", many(&["tag1", "tag2"])), ("name", once("banana"))],
                "",
            ),
            (
                "?note -tag1 !OldesT banana -tag2 this trails",
                vec![
                    ("name", once("banana")),
                    ("oldest", once("!OldesT")),
                    ("tags", many(&["tag1", "tag2"])),
                ],
                " this trails",
            ),
        ],
    );
    check(
        "!foo [<flags+: starts(`-`), notrim()> <_*>]",
        vec![(
            "!foo -a -b -c d -e",
            vec![("flags", many(&["-a", "-b", "-c", "-e"])), ("_", many(&["d"]))],
            "",
        )],
    );
    check(
        "!foo <quoted+: notrim(), starts(`'`), ends(`'`); notrim(), starts('`'), ends('`')>",
        vec![
            (
                "!foo `it's nice` 'isn`t it?'",
                vec![("quoted", many(&["`it's nice`", "'isn`t it?'"]))],
                "",
            ),
            (
                "!foo `a b c d e ` ` 1 2 3 4 5 `",
                vec![("quoted", many(&["`a b c d e `", "` 1 2 3 4 5 `"]))],
                "",
            ),
        ],
    );
    check(
        r"!add <n1: /^\-?\d+$/> <nums+: /^\-?\d+$/>",
        vec![
            ("!add 2 42", vec![("n1", once("2")), ("nums", many(&["42"]))], ""),
            (
                "!add -42 42 -42 0",
                vec![("n1", once("-42")), ("nums", many(&["42", "-42", "0"]))],
                "",
            ),
        ],
    );
    check(
        "!foo [<n: /^[0-9]+$/>]",
        vec![("!foo 42", vec![("n", once("42"))], "")],
    );
    check(
        "$foo <amount: /^[0-9]+$/>",
        vec![("$foo 0", vec![("amount", once("0"))], "")],
    );
}

#[test]
fn match_fail() {
    let tests = vec![
        (
            r"!add <n1: /^\-?\d+$/> <nums+: /^\-?\d+$/>",
            vec!["!add haha 0", "!add 24 0_0", "!add - 2 2"],
        ),
        ("?foo <_>", vec!["?foo", "asdf asdf"]),
    ];

    for (src, cases) in tests {
        let cmd = Command::new(src).unwrap();
        for s in cases {
            let m = cmd.get_matches(s);
            assert_eq!(None, m, "\ncommand: {src}");
        }
    }
}

#[test]
fn bet_scenario() {
    let cmd = Command::new(".bet <amount>").unwrap();
    let got = cmd.get_matches(".bet 42").unwrap();
    assert_eq!(got.get("amount"), Some(&Match::Once("42")));
    assert_eq!(got.get_once("amount"), Some("42"));
    assert_eq!(got.rest, "");
}

#[test]
fn run_scenario_without_flags() {
    let cmd = Command::new(
        ".run\n<flags*: starts(`--`)>\n<code: starts('```'), ends('```'); starts('`'), ends('`')>",
    )
    .unwrap();
    let got = cmd.get_matches(".run `bar`").unwrap();
    assert_eq!(got.get_once("code"), Some("bar"));
    assert!(!got.is_present("flags"));
    assert_eq!(got.rest, "");
}

#[test]
fn optional_before_literal() {
    let cmd = Command::new("<maybe-prefix?> bar").unwrap();
    let got = cmd.get_matches("bar").unwrap();
    assert!(!got.is_present("maybe-prefix"));
    assert_eq!(got.rest, "");
    let got = cmd.get_matches("foo bar").unwrap();
    assert_eq!(got.get_once("maybe-prefix"), Some("foo"));
}

#[test]
fn repeated_calls_agree() {
    let cmd = Command::new("?note [<oldest?: `!oldest`, nocase()> <tags*: starts(`-`,`+`)> <name>]").unwrap();
    let input = "?note -tag1 !OldesT banana -tag2 this trails";
    assert_eq!(cmd.get_matches(input), cmd.get_matches(input));
}

#[test]
fn rest_is_a_suffix() {
    let cmd = Command::new(".bet <amount>").unwrap();
    for input in [".bet 42", ".bet   7  tail  ", "  .bet\tx\n\ny"] {
        let got = cmd.get_matches(input).unwrap();
        assert!(input.ends_with(got.rest));
        let consumed = &input[..input.len() - got.rest.len()];
        assert_eq!(format!("{}{}", consumed, got.rest), input);
    }
}

#[test]
fn leading_whitespace_is_skipped_and_trailing_kept() {
    let cmd = Command::new(".bet <amount>").unwrap();
    let a = cmd.get_matches(".bet 42  ").unwrap();
    let b = cmd.get_matches(" \t\n.bet 42  ").unwrap();
    assert_eq!(a.get("amount"), b.get("amount"));
    assert_eq!(a.rest, "  ");
    assert_eq!(b.rest, "  ");
}

#[test]
fn shapes_follow_quantifiers() {
    let cmd = Command::new("!x [<a: starts(`a`)> <b?: starts(`b`)> <c*: starts(`c`)> <d+: starts(`d`)>]").unwrap();
    let got = cmd.get_matches("!x dd bb aa cc c2").unwrap();
    assert!(matches!(got.get("a"), Some(Match::Once("a"))));
    assert!(matches!(got.get("b"), Some(Match::Once("b"))));
    assert_eq!(got.get_many("c"), Some(&vec!["c", "2"]));
    assert_eq!(got.get_many("d"), Some(&vec!["d"]));
}

#[test]
fn prefix_holds_when_match_does() {
    let cmd = Command::new("?eval <code: starts('```'), ends('```')>").unwrap();
    assert_eq!(cmd.get_matches("?eval 4"), None);
    assert!(cmd.has_prefix("?eval 4"));
    assert!(cmd.get_matches("?eval ```x```").is_some());
    assert!(cmd.has_prefix("?eval ```x```"));
    assert!(!cmd.has_prefix("!eval"));
}

#[test]
fn empty_template_matches_nothing() {
    let cmd = Command::new("").unwrap();
    assert_eq!(cmd.get_matches(""), None);
    assert!(!cmd.has_prefix("anything"));
}

#[test]
fn notrim_capture_and_rest_rebuild_input() {
    let cmd = Command::new("!q <x: notrim(), starts(`(`), ends(`)`)>").unwrap();
    let input = "!q   (a b) tail";
    let got = cmd.get_matches(input).unwrap();
    let x = got.get_once("x").unwrap();
    assert_eq!(x, "(a b)");
    assert_eq!(format!("{}{}", x, got.rest), "(a b) tail");
}

#[test]
fn starts_only_with_notrim_keeps_prefix() {
    let cmd = Command::new("!o <opt: starts(`--`), notrim()>").unwrap();
    let got = cmd.get_matches("!o --verbose rest").unwrap();
    assert_eq!(got.get_once("opt"), Some("--verbose"));
    assert_eq!(got.rest, " rest");
    let cmd = Command::new("!o <opt: starts(`--`)>").unwrap();
    let got = cmd.get_matches("!o --verbose").unwrap();
    assert_eq!(got.get_once("opt"), Some("verbose"));
}

#[test]
fn ends_only_consumes_the_end() {
    let cmd = Command::new("!e <word: ends(`!`)>").unwrap();
    let got = cmd.get_matches("!e wow! more").unwrap();
    assert_eq!(got.get_once("word"), Some("wow"));
    assert_eq!(got.rest, " more");
    assert_eq!(cmd.get_matches("!e !"), None);
}

#[test]
fn eq_nocase_keeps_the_input_text() {
    let cmd = Command::new("!s <mode: `fast`, `slow`, nocase()>").unwrap();
    let got = cmd.get_matches("!s SLOW").unwrap();
    assert_eq!(got.get_once("mode"), Some("SLOW"));
    let cmd = Command::new("!s <mode: `fast`, `slow`>").unwrap();
    assert_eq!(cmd.get_matches("!s SLOW"), None);
}

#[test]
fn many_stops_at_fifty() {
    let cmd = Command::new("!n <xs+: /^[0-9]+$/>").unwrap();
    let words: Vec<String> = (0..60).map(|i| i.to_string()).collect();
    let input = format!("!n {}", words.join(" "));
    let got = cmd.get_matches(&input).unwrap();
    let xs = got.get_many("xs").unwrap();
    assert_eq!(xs.len(), 50);
    assert_eq!(xs[49], "49");
    assert!(got.rest.starts_with(" 50"));
}

#[test]
fn greedy_capture_gives_back_for_the_next_segment() {
    let cmd = Command::new("!g <xs*: /^[a-z]+$/> end").unwrap();
    let got = cmd.get_matches("!g a b c end").unwrap();
    assert_eq!(got.get_many("xs"), Some(&vec!["a", "b", "c"]));
    assert_eq!(got.rest, "");
}

#[test]
fn duplicate_names_keep_the_last() {
    let cmd = Command::new("!d <x: starts(`a`)> <x: starts(`b`)>").unwrap();
    let got = cmd.get_matches("!d a1 b2").unwrap();
    assert_eq!(got.get_once("x"), Some("2"));
}

#[test]
fn take_removes_a_capture() {
    let cmd = Command::new(".join [<sep?: starts(`sep=`)> <words+>]").unwrap();
    let mut got = cmd.get_matches(".join sep=_ snake case").unwrap();
    assert_eq!(got.take_many("sep"), None);
    assert_eq!(got.take_many("words"), Some(vec!["snake", "case"]));
    assert!(!got.is_present("words"));
    assert_eq!(got.take("sep"), Some(Match::Once("_")));
    assert_eq!(got.take("sep"), None);
    assert!(got.into_matches().is_empty());
}

#[test]
fn match_accessors() {
    let m = Match::Many(vec!["a", "b"]);
    let mut it = m.iter();
    assert_eq!(it.next(), Some("a"));
    assert_eq!(it.next(), Some("b"));
    assert_eq!(it.next(), None);
    assert_eq!(m.values(), vec!["a", "b"]);
    assert_eq!(m.clone().many(), Some(vec!["a", "b"]));
    assert_eq!(m.once(), None);
    let o = Match::Once("x");
    assert_eq!(o.values(), vec!["x"]);
    assert_eq!(o.clone().once(), Some("x"));
    assert_eq!(o.many(), None);
}

#[test]
fn rejects_adjacent_nondeterministic_segments() {
    assert!(matches!(
        Command::new("<a?> <b*>"),
        Err(Error::Rule(RuleError::NonDeterministicSequence))
    ));
    assert!(matches!(
        Command::new("!x <a*> [<b?>]"),
        Err(Error::Rule(RuleError::NonDeterministicSequence))
    ));
    assert!(Command::new("<a> <b>").is_ok());
    assert!(Command::new("<a*> x <b*>").is_ok());
}

#[test]
fn filter_errors() {
    assert!(matches!(Command::new("<a: eq()>"), Err(Error::Filter(FilterError::MissingArgs(n))) if n == "eq"));
    assert!(matches!(Command::new("<a: regex()>"), Err(Error::Filter(FilterError::MissingArgs(n))) if n == "regex"));
    assert!(matches!(Command::new("<a: starts()>"), Err(Error::Filter(FilterError::MissingArgs(n))) if n == "starts"));
    assert!(matches!(Command::new("<a: `x`, starts(`y`)>"), Err(Error::Filter(FilterError::Eq))));
    assert!(matches!(Command::new("<a: `x`, notrim()>"), Err(Error::Filter(FilterError::Eq))));
    assert!(matches!(Command::new("<a: `x`, /y/>"), Err(Error::Filter(FilterError::Eq))));
    assert!(matches!(Command::new("<a: starts(`x`), `y`>"), Err(Error::Filter(FilterError::Eq))));
    assert!(matches!(Command::new("<a: is(`x`)>"), Err(Error::Filter(FilterError::UnknownFilter(n))) if n == "is"));
    assert!(matches!(Command::new("<a: /(/>"), Err(Error::Filter(FilterError::Regex(_)))));
}

#[test]
fn syntax_errors() {
    match Command::new(".foo\n  <bar") {
        Err(Error::Syntax(e)) => {
            assert_eq!(e.line_no, 1);
            assert_eq!(e.col, 6);
            assert_eq!(e.line, "  <bar");
            assert_eq!(e.msg, "missing closing delimiter: '>'");
        }
        other => panic!("unexpected: {:?}", other.map(|_| ())),
    }
    match Command::new("[<a>") {
        Err(Error::Syntax(e)) => {
            assert_eq!((e.line_no, e.col), (0, 4));
            assert_eq!(e.msg, "missing closing delimiter: ']'");
        }
        other => panic!("unexpected: {:?}", other.map(|_| ())),
    }
    match Command::new("{<a> <b>") {
        Err(Error::Syntax(e)) => assert_eq!(e.msg, "missing closing delimiter: '}'"),
        other => panic!("unexpected: {:?}", other.map(|_| ())),
    }
}
