use malachi::ast::Quantifier;
use malachi::errors::ParseError;
use malachi::parser::{
    parse_capture, parse_command, parse_filter, parse_group, parse_literal, parse_priority_group,
    parse_regex, parse_segment, parse_string, Capture, Filter, Pattern, Segment,
};

fn name_quan(s: &str) -> (&str, Quantifier) {
    if let Some(x) = s.strip_suffix('*') {
        (x, Quantifier::Many0)
    } else if let Some(x) = s.strip_suffix('?') {
        (x, Quantifier::MaybeOnce)
    } else if let Some(x) = s.strip_suffix('+') {
        (x, Quantifier::Many1)
    } else {
        (s, Quantifier::Once)
    }
}

fn filter(name: &str, args: &[&str]) -> Filter {
    Filter {
        name: name.to_string(),
        args: args.iter().map(|s| s.to_string()).collect(),
    }
}

fn capture(name: &str, patterns: Vec<Pattern>) -> Capture {
    let (name, quantifier) = name_quan(name);
    Capture {
        name: name.to_string(),
        quantifier,
        patterns,
    }
}

fn lit(s: &str) -> Segment {
    Segment::Text(String::from(s))
}

#[test]
fn tests_test_string() {
    let tests = &[
        ("'hello'", "hello"),
        (r"'what\'s love?'", "what's love?"),
        (r"'baby don\'t hurt me\\'", "baby don't hurt me\\"),
        ("`'epico'`", "'epico'"),
        (r"`yo\t\``", "yo\t`"),
    ];

    for (s, expected) in tests {
        let got = parse_string(s).unwrap();
        assert_eq!(got, ("", expected.to_string()));
    }
}

#[test]
fn tests_test_literal() {
    let tests = &[
        (".foobar", ".foobar"),
        ("\\\t \n these are not parsed!", "\t "),
        ("asdf asdf", "asdf"),
        (r"\t\n\t\  wow!", "\t\n\t  wow!"),
    ];

    for (s, expected) in tests {
        let got = parse_literal(s).unwrap();
        let expected = String::from(*expected);
        assert_eq!(&expected, &got.1);
    }
}

#[test]
fn tests_test_filter() {
    let tests = vec![
        ("asdf()", filter("asdf", &[])),
        ("wow-args('lol')", filter("wow-args", &["lol"])),
        (
            "super-duper-1('1',\t'2' , \n'3')",
            filter("super-duper-1", &["1", "2", "3"]),
        ),
    ];

    for (s, expected) in tests {
        let got = parse_filter(s).unwrap();
        assert_eq!(got, ("", expected));
    }
}

#[test]
fn test_capture() {
    let tests = vec![
        ("<bare>", capture("bare", vec![])),
        ("<maybe?>", capture("maybe?", vec![])),
        ("<*>", capture("*", vec![])),
        (
            "<flags+: starts(`--`),>",
            capture("flags+", vec![Pattern(vec![filter("starts", &["--"])])]),
        ),
    ];

    for (s, expected) in tests {
        let got = parse_capture(s).unwrap();
        assert_eq!(got.1, expected);
    }
}

#[test]
fn test_priority_group() {
    let tests = vec![(
        "[
	<first*>
	<second: foo(`a`)>
	<third?: bar(`ünıcöde`); empty()>
	]",
        vec![
            capture("first*", vec![]),
            capture("second", vec![Pattern(vec![filter("foo", &["a"])])]),
            capture(
                "third?",
                vec![
                    Pattern(vec![filter("bar", &["ünıcöde"])]),
                    Pattern(vec![filter("empty", &[])]),
                ],
            ),
        ],
    )];

    for (s, expected) in tests {
        let got = parse_priority_group(s).unwrap();
        assert_eq!(expected, got.1);
    }
}

#[test]
fn test_segment() {
    let tests = vec![
        (".lmao 123", lit(".lmao")),
        ("<lol>", Segment::Capture(capture("lol", vec![]))),
        (
            "[<lol1> <lol2> <lol3>]",
            Segment::PriorityGroup(vec![
                capture("lol1", vec![]),
                capture("lol2", vec![]),
                capture("lol3", vec![]),
            ]),
        ),
    ];

    for (s, expected) in tests {
        let got = parse_segment(s).unwrap();
        assert_eq!(expected, got.1);
    }
}

#[test]
fn test_command() {
    let tests = vec![
        (
            r".bet <amount: is(`digits`)>",
            vec![
                lit(".bet"),
                Segment::Capture(capture(
                    "amount",
                    vec![Pattern(vec![filter("is", &["digits"])])],
                )),
            ],
        ),
        (
            "?play
[
	<mode?: starts(`mode=`)>
	<edition?: starts(`edition=`)>
]
<code:
	starts('`'), ends('`');
	starts('```'), ends('```');
>",
            vec![
                lit("?play"),
                Segment::PriorityGroup(vec![
                    capture("mode?", vec![Pattern(vec![filter("starts", &["mode="])])]),
                    capture(
                        "edition?",
                        vec![Pattern(vec![filter("starts", &["edition="])])],
                    ),
                ]),
                Segment::Capture(capture(
                    "code",
                    vec![
                        Pattern(vec![filter("starts", &["`"]), filter("ends", &["`"])]),
                        Pattern(vec![filter("starts", &["```"]), filter("ends", &["```"])]),
                    ],
                )),
            ],
        ),
    ];

    for (s, expected) in tests {
        let got = parse_command(s).unwrap();
        if expected.len() != got.len() {
            panic!(
                "different lengths: expected {}, got {}",
                expected.len(),
                got.len()
            );
        }
        for (left, right) in expected.iter().zip(got.iter()) {
            assert_eq!(left, right);
        }
    }
}

#[test]
fn regex_literals() {
    assert_eq!(parse_regex(r"/^\-?\d+$/ rest").unwrap(), (" rest", r"^\-?\d+$".to_string()));
    assert_eq!(parse_regex(r"/a\/b/").unwrap(), ("", "a/b".to_string()));
    assert!(parse_regex("//").is_err());
    assert!(parse_regex("/abc").is_err());
}

#[test]
fn plain_groups_and_failures() {
    let got = parse_group("{<a> <b?>} tail").unwrap();
    assert_eq!(got, (" tail", vec![capture("a", vec![]), capture("b?", vec![])]));
    assert_eq!(
        parse_group("{<a> x"),
        Err(ParseError::Unclosed { at: 5, delimiter: '}' })
    );
    assert_eq!(parse_group("<a>"), Err(ParseError::NoMatch));
    assert_eq!(
        parse_capture("<a b>"),
        Err(ParseError::Unclosed { at: 3, delimiter: '>' })
    );
}

#[test]
fn trailing_unreadable_text_ends_the_template() {
    let got = parse_command(".foo \\q <bar>").unwrap();
    assert_eq!(got, vec![lit(".foo")]);
}
