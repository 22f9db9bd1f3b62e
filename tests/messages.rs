use malachi::ast::Quantifier;
use malachi::errors::{FilterError, RuleError};
use malachi::{Command, Error};

fn error_of(template: &str) -> Error {
    match Command::new(template) {
        Err(e) => e,
        Ok(_) => panic!("template compiled: {}", template),
    }
}

#[test]
fn syntax_error_messages() {
    let e = error_of(".foo\n  <bar");
    assert_eq!(e.message(), "1:6: missing closing delimiter: '>'");
    match e {
        Error::Syntax(s) => {
            assert_eq!(s.message(), "1:6: missing closing delimiter: '>'");
            assert_eq!(
                s.report(),
                "1:6: missing closing delimiter: '>'\n|\n|   <bar\n|      ^"
            );
        }
        _ => panic!("not a syntax error"),
    }
    let e = error_of("[<a> x");
    match e {
        Error::Syntax(s) => {
            assert_eq!((s.line_no, s.col), (0, 5));
            assert_eq!(s.line, "[<a> x");
            assert_eq!(s.report(), "0:5: missing closing delimiter: ']'\n|\n| [<a> x\n|     ^");
        }
        _ => panic!("not a syntax error"),
    }
}

#[test]
fn filter_and_rule_messages() {
    assert_eq!(error_of("<a: is(`x`)>").message(), "unknown filter `is`");
    assert_eq!(error_of("<a: eq()>").message(), "`eq` takes at least 1 argument; 0 given");
    assert_eq!(
        error_of("<a: `x`, notrim()>").message(),
        "the `eq` filter can only be used along `nocase`"
    );
    assert_eq!(
        error_of("<a?> <b*>").message(),
        "command contains two non-deterministic captures next to each other"
    );
    assert_eq!(
        RuleError::NonDeterministicSequence.message(),
        "command contains two non-deterministic captures next to each other"
    );
    match error_of("<a: /(/>") {
        Error::Filter(e @ FilterError::Regex(_)) => {
            let m = e.message();
            assert!(!m.is_empty());
            assert_ne!(m, "(");
        }
        _ => panic!("not a regex error"),
    }
}

#[test]
fn quantifier_symbols() {
    assert_eq!(Quantifier::Once.symbol(), "");
    assert_eq!(Quantifier::MaybeOnce.symbol(), "?");
    assert_eq!(Quantifier::Many0.symbol(), "*");
    assert_eq!(Quantifier::Many1.symbol(), "+");
}

#[test]
fn benchmark_inputs_match_without_panicking() {
    let cases: Vec<(&str, Vec<&str>)> = vec![
        (
            ".bet <amount>",
            vec![
                ".bet 55",
                ".bet 522 52 51 123 51 as fdfa fff s",
                ".bet 22234",
                ".bet\n\n\n\n5",
                ".bet aaaaaaaaaaaaaaaaaaaaaaaaaaaaaaaaaaaaaaaaaaaaaaaaaaaaa",
            ],
        ),
        (
            "?eval
<flags*: starts(`--`)>
<code:
	starts('```'), ends('```');
	starts('```rust'), ends('```');
	starts('`'), ends('`');
>",
            vec![
                "?eval --nice `return 5`",
                "?eval ```rust
fn main() {
	println!(\"hello, world!\");
}
```",
                "?eval --1 --2 --3 --4 --5 --6 --7 --8 `hi`",
                "?eval ```asdf```",
            ],
        ),
        (
            ".foo
<maybe?: starts(`-`)>
<perhaps*: ends(`!`)>
<need:
	starts(':');
	ends('-');
	starts('.');
>
",
            vec![
                ".foo -here wow! epic! incredible! :amazing .wow, idk",
                ".foo -wow .what",
                ".foo .foo",
            ],
        ),
        (
            ".any <any*>",
            vec![
                ".any asdf asdf asdf asdf asdf asdf asdf asdf asdf asdf asdf asdf asdf asdf asdf asdf asdf asdf asdf asdf asdf asdf asdf asdf asdf asdf asdf asdf asdf asdf asdf asdf asdf asdf asdf asdf asdf asdf asdf asdf asdf asdf asdf asdf asdf asdf asdf asdf asdf ",
                ".any 1 3\n551235555555555555555551111111111111111\tfasdfasfwaf",
            ],
        ),
        (
            ".run <flags*>
<code:
	starts('```'), ends('```');
	starts('```go'), ends('```');
	starts('`'), ends('`');
>",
            vec![
                ".run 1 2 3 4 5 6 7 8 9 10 11 12 13 14 15 16 17 18 19 20 21 22 23 24 25 26 27 28 29 30 31 32 33 34 35 36 37 38 39 40 41 42 43 44 45 46 47 ",
                ".run 1 2 3 4 5 6 7 8 9 10 11 12 13 14 15 16 17 18 19 20 21 22 23 24 25 26 27 28 29 30 31 32 33 34 35 36 37 38 39 40 41 42 43 44 45 46 47 ```goasdf```",
                ".run 1 2 3 4 5 6 7 8 9 10 11 12 13 14 15 16 17 18 19 20 21 22 23 24 25 26 27 28 29 30 31 32 33 `rust` lol",
            ],
        ),
    ];
    for (template, inputs) in cases {
        let cmd = Command::new(template).unwrap_or_else(|e| panic!("{}", e.message()));
        for input in inputs {
            if let Some(args) = cmd.get_matches(input) {
                assert!(input.ends_with(args.rest));
            }
        }
    }
}
