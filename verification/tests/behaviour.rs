//! Further behaviour: the laws on concrete inputs, edge cases, error messages,
//! and the type checks held against the standard library's parsers.

use skillcheck::text::is_space_char;
use skillcheck::{
    parse_str, Config, ParseError, Schema, SchemaParseError, Type, ValidationError, Value, ValueMap,
};

fn cfg(s: &str) -> Config {
    s.parse().unwrap()
}

#[test]
fn last_assignment_wins_for_nested_leaf() {
    let c = cfg("a.b = 1\nx = y\na.b = 2");
    assert_eq!(c.get_str("a.b"), Some("2"));
    assert_eq!(c.get_str("x"), Some("y"));
}

#[test]
fn storing_a_key_leaves_other_keys_alone() {
    let c = cfg("x.y = 1\nx.z = 2\nw = 3");
    assert_eq!(c.get_str("x.y"), Some("1"));
    assert_eq!(c.get_str("x.z"), Some("2"));
    assert_eq!(c.get_str("w"), Some("3"));
}

#[test]
fn conflict_on_the_last_segment_names_it() {
    match parse_str("a.b.c = 1\na.b = 2").unwrap_err() {
        ParseError::KeyConflict { line, key } => {
            assert_eq!(line, 2);
            assert_eq!(key, "b");
        }
        other => panic!("expected KeyConflict, got {other:?}"),
    }
}

#[test]
fn keys_that_are_no_prefix_of_each_other_always_parse() {
    let c = parse_str("a.b = 1\na.c = 2\nab = 3\na.b = 4\nb.a.b = 5").unwrap();
    let cfg = Config::from_text("a.b = 1\na.c = 2\nab = 3\na.b = 4\nb.a.b = 5").unwrap();
    assert_eq!(c.len(), 3);
    assert_eq!(cfg.get_str("a.b"), Some("4"));
    assert_eq!(cfg.get_str("a.c"), Some("2"));
    assert_eq!(cfg.get_str("ab"), Some("3"));
    assert_eq!(cfg.get_str("b.a.b"), Some("5"));
    assert_eq!(cfg.get_str("b.a"), None);
}

#[test]
fn first_malformed_or_clashing_line_is_reported() {
    match parse_str("x = 1\nno separator\nx.y = 2").unwrap_err() {
        ParseError::Syntax { line, .. } => assert_eq!(line, 2),
        other => panic!("expected Syntax, got {other:?}"),
    }
    match parse_str("x = 1\ny = 2\nx.y = 2\nbad").unwrap_err() {
        ParseError::KeyConflict { line, key } => {
            assert_eq!(line, 3);
            assert_eq!(key, "x");
        }
        other => panic!("expected KeyConflict, got {other:?}"),
    }
}

#[test]
fn conflict_on_an_inner_segment_names_it() {
    match parse_str("a.b = 1\n\n# c\na.b.c.d = 2").unwrap_err() {
        ParseError::KeyConflict { line, key } => {
            assert_eq!(line, 4);
            assert_eq!(key, "b");
        }
        other => panic!("expected KeyConflict, got {other:?}"),
    }
}

#[test]
fn keys_come_out_in_dictionary_order() {
    let m = parse_str("b = 1\na = 2\nc.z = 3\nc.y = 4\nB = 5").unwrap();
    assert_eq!(
        format!("{m:?}"),
        format!(
            "{:?}",
            {
                let mut inner = ValueMap::new();
                inner.insert("y".to_owned(), Value::String("4".to_owned()));
                inner.insert("z".to_owned(), Value::String("3".to_owned()));
                let mut outer = ValueMap::new();
                outer.insert("c".to_owned(), Value::Namespace(inner));
                outer.insert("a".to_owned(), Value::String("2".to_owned()));
                outer.insert("B".to_owned(), Value::String("5".to_owned()));
                outer.insert("b".to_owned(), Value::String("1".to_owned()));
                outer
            }
        )
    );
    let text = format!("{m:?}");
    let pos = |k: &str| text.find(k).unwrap();
    assert!(pos("\"B\"") < pos("\"a\""));
    assert!(pos("\"a\"") < pos("\"b\""));
    assert!(pos("\"b\"") < pos("\"c\""));
    assert!(pos("\"y\"") < pos("\"z\""));
}

#[test]
fn comment_and_blank_lines_change_nothing() {
    let plain = parse_str("a = 1\nb.c = 2").unwrap();
    let commented = parse_str("a = 1\n# x = 9\n\n   ; y = 8\nb.c = 2\n\n").unwrap();
    assert_eq!(plain, commented);
}

#[test]
fn dash_marker_reads_as_plain_key() {
    assert_eq!(parse_str("-a.b = 1").unwrap(), parse_str("a.b = 1").unwrap());
    assert_eq!(parse_str("  -  a = 1").unwrap(), parse_str("a = 1").unwrap());
    let c = cfg("-#a = 1");
    assert_eq!(c.get_str("#a"), Some("1"));
    let c = cfg("--a = 1");
    assert_eq!(c.get_str("-a"), Some("1"));
}

#[test]
fn unicode_whitespace_is_trimmed() {
    let c = cfg("\u{3000}key\u{a0}=\u{2003}spaced value\u{85}");
    assert_eq!(c.get_str("key"), Some("spaced value"));
}

#[test]
fn crlf_line_endings_are_accepted() {
    let c = cfg("a = 1\r\nb = 2\r\n");
    assert_eq!(c.get_str("a"), Some("1"));
    assert_eq!(c.get_str("b"), Some("2"));
    match parse_str("a = 1\r\nbroken\r\n").unwrap_err() {
        ParseError::Syntax { line, .. } => assert_eq!(line, 2),
        other => panic!("expected Syntax, got {other:?}"),
    }
}

#[test]
fn syntax_error_messages() {
    match parse_str("just a line").unwrap_err() {
        ParseError::Syntax { message, .. } => assert_eq!(message, "expected '=' separator"),
        other => panic!("expected Syntax, got {other:?}"),
    }
    match parse_str(" = value").unwrap_err() {
        ParseError::Syntax { message, .. } => assert_eq!(message, "empty key"),
        other => panic!("expected Syntax, got {other:?}"),
    }
    match parse_str("x = 1\n a..b = value").unwrap_err() {
        ParseError::Syntax { line, message } => {
            assert_eq!(line, 2);
            assert_eq!(message, "invalid key 'a..b': empty segment");
        }
        other => panic!("expected Syntax, got {other:?}"),
    }
    match parse_str("a. = value").unwrap_err() {
        ParseError::Syntax { message, .. } => {
            assert_eq!(message, "invalid key 'a.': empty segment")
        }
        other => panic!("expected Syntax, got {other:?}"),
    }
}

#[test]
fn lookups_through_leaves_and_empty_paths_give_none() {
    let c = cfg("a = 1\nb.c = 2");
    assert_eq!(c.get("a.x"), None);
    assert_eq!(c.get(""), None);
    assert_eq!(c.get("b."), None);
    assert!(c.get("b").unwrap().is_map());
    assert_eq!(c.get("b").unwrap().as_str(), None);
    assert_eq!(c.get_str("b"), None);
    assert!(!c.is_empty());
}

#[test]
fn value_map_operations() {
    let mut m = ValueMap::new();
    assert!(m.is_empty());
    assert_eq!(m.insert("k".to_owned(), Value::String("1".to_owned())), None);
    assert_eq!(
        m.insert("k".to_owned(), Value::String("2".to_owned())),
        Some(Value::String("1".to_owned()))
    );
    assert_eq!(m.len(), 1);
    assert!(m.contains_key("k"));
    assert!(!m.contains_key("j"));
    assert_eq!(m.get("k").unwrap().as_str(), Some("2"));
    assert!(m.get("k").unwrap().is_string());
    m.insert("a".to_owned(), Value::String("0".to_owned()));
    let (k0, v0) = m.get_index(0).unwrap();
    assert_eq!(k0, "a");
    assert_eq!(v0.as_str(), Some("0"));
    assert_eq!(m.get_index(1).unwrap().0, "k");
    assert!(m.get_index(2).is_none());
}

#[test]
fn clone_and_default() {
    let c = cfg("a.b = 1");
    assert_eq!(c.clone(), c);
    assert!(Config::default().is_empty());
    assert_eq!(Config::default().len(), 0);
    let s: Schema = "a.b = integer".parse().unwrap();
    assert!(s.clone().validate(&c).is_ok());
}

#[test]
fn root_exposes_the_top_level_map() {
    let c = cfg("z = 1\ny.x = 2");
    assert_eq!(c.root().len(), 2);
    assert_eq!(c.root(), &parse_str("z = 1\ny.x = 2").unwrap());
}

#[test]
fn type_names() {
    assert_eq!("string".parse::<Type>().unwrap(), Type::String);
    assert_eq!("bool".parse::<Type>().unwrap(), Type::Bool);
    assert_eq!("integer".parse::<Type>().unwrap(), Type::Integer);
    assert_eq!("float".parse::<Type>().unwrap(), Type::Float);
    match "Integer".parse::<Type>().unwrap_err() {
        SchemaParseError::UnknownType { name } => assert_eq!(name, "Integer"),
        other => panic!("expected UnknownType, got {other:?}"),
    }
}

#[test]
fn schema_errors_from_parser_keep_their_kind() {
    match "a = string\na.b = bool".parse::<Schema>().unwrap_err() {
        SchemaParseError::Parse(ParseError::KeyConflict { line, key }) => {
            assert_eq!(line, 2);
            assert_eq!(key, "a");
        }
        other => panic!("expected Parse(KeyConflict), got {other:?}"),
    }
    match "a.b = string\na.c = nope\nb = worse".parse::<Schema>().unwrap_err() {
        SchemaParseError::UnknownType { name } => assert_eq!(name, "nope"),
        other => panic!("expected UnknownType, got {other:?}"),
    }
}

#[test]
fn violations_come_in_order() {
    let s: Schema = "a.b = string\na.c = integer\nd = bool".parse().unwrap();
    let c = cfg("x = 1\nd = yes");
    let errors = s.validate(&c).unwrap_err();
    assert_eq!(
        errors,
        vec![
            ValidationError::MissingKey { key: "a.b".into() },
            ValidationError::MissingKey { key: "a.c".into() },
            ValidationError::TypeMismatch {
                key: "d".into(),
                expected: Type::Bool,
                actual_value: "yes".into(),
            },
            ValidationError::UnknownKey { key: "x".into() },
        ]
    );
}

#[test]
fn nested_violations_carry_dotted_paths() {
    let s: Schema = "a.b.c = float\na.d = string".parse().unwrap();
    let c = cfg("a.b.c = x\na.b.e = 1\na.d.f = 2");
    let errors = s.validate(&c).unwrap_err();
    assert_eq!(
        errors,
        vec![
            ValidationError::TypeMismatch {
                key: "a.b.c".into(),
                expected: Type::Float,
                actual_value: "x".into(),
            },
            ValidationError::UnknownKey { key: "a.b.e".into() },
            ValidationError::ShapeMismatch {
                key: "a.d".into(),
                expected_kind: "scalar",
                actual_kind: "map",
            },
        ]
    );
}

#[test]
fn each_violation_is_reported_once() {
    let s: Schema = "a.b = integer\na.bc.d = bool\nab = string\nm.x = float".parse().unwrap();
    let c = cfg("a.b.z = 1\na.bc = 2\nab.q = 3\nabc = 4\nm = 5\nn.x = 6");
    let errors = s.validate(&c).unwrap_err();
    assert_eq!(
        errors,
        vec![
            ValidationError::ShapeMismatch {
                key: "a.b".into(),
                expected_kind: "scalar",
                actual_kind: "map",
            },
            ValidationError::ShapeMismatch {
                key: "a.bc".into(),
                expected_kind: "map",
                actual_kind: "scalar",
            },
            ValidationError::ShapeMismatch {
                key: "ab".into(),
                expected_kind: "scalar",
                actual_kind: "map",
            },
            ValidationError::ShapeMismatch {
                key: "m".into(),
                expected_kind: "map",
                actual_kind: "scalar",
            },
            ValidationError::UnknownKey { key: "abc".into() },
            ValidationError::UnknownKey { key: "n".into() },
        ]
    );
    for i in 0..errors.len() {
        for j in (i + 1)..errors.len() {
            assert_ne!(errors[i], errors[j]);
        }
    }
}

#[test]
fn validation_passes_on_conforming_config() {
    let s: Schema = "n = integer\nf = float\nb = bool\ns = string".parse().unwrap();
    let c = cfg("n = -9223372036854775808\nf = -1.5e-3\nb = false\ns =");
    assert!(s.validate(&c).is_ok());
}

#[test]
fn integer_and_float_checks_agree_with_std() {
    let mut samples: Vec<String> = vec![
        "9223372036854775807",
        "9223372036854775808",
        "-9223372036854775808",
        "-9223372036854775809",
        "+9223372036854775807",
        "00000000000000000000000000001",
        "99999999999999999999999999999999999999999999",
        "+1",
        "-0",
        "+",
        "-",
        "",
        "1 ",
        " 1",
        "1_0",
        "infinity",
        "-InFiNiTy",
        "+inf",
        "NaN",
        "nan1",
        "1e",
        "1e+",
        "1E-7",
        ".5",
        "5.",
        ".",
        "1.5E+3",
        "1.e5",
        ".e5",
        "e5",
        "1e5.5",
        "١",
        "0x10",
    ]
    .into_iter()
    .map(String::from)
    .collect();
    let alphabet = ['0', '9', '+', '-', '.', 'e', 'E', 'i', 'n', 'f', 'a', 'N', ' '];
    for a in alphabet {
        samples.push(a.to_string());
        for b in alphabet {
            samples.push(format!("{a}{b}"));
            for c in alphabet {
                samples.push(format!("{a}{b}{c}"));
                for d in ['1', '.', 'e', '-'] {
                    samples.push(format!("{a}{b}{c}{d}"));
                }
            }
        }
    }
    for s in &samples {
        assert_eq!(
            skillcheck::schema::type_matches(Type::Integer, s),
            s.parse::<i64>().is_ok(),
            "integer {s:?}"
        );
        assert_eq!(
            skillcheck::schema::type_matches(Type::Float, s),
            s.parse::<f64>().is_ok(),
            "float {s:?}"
        );
    }
    assert!(skillcheck::schema::type_matches(Type::Bool, "true"));
    assert!(skillcheck::schema::type_matches(Type::Bool, "false"));
    assert!(!skillcheck::schema::type_matches(Type::Bool, "True"));
    assert!(skillcheck::schema::type_matches(Type::String, "anything"));
}

#[test]
fn whitespace_agrees_with_std() {
    for u in 0u32..=0x10FFFF {
        if let Some(c) = char::from_u32(u) {
            assert_eq!(is_space_char(c), c.is_whitespace(), "U+{u:04X}");
        }
    }
}

#[test]
fn readme_examples() {
    let c: Config = "
    endpoint = localhost:3000
    # debug = true
    log.file = /var/log/console.log
    log.name = default.log
"
    .parse()
    .unwrap();
    assert_eq!(c.get_str("endpoint"), Some("localhost:3000"));
    assert_eq!(c.get_str("log.file"), Some("/var/log/console.log"));
    assert_eq!(c.get_str("log.name"), Some("default.log"));
    assert_eq!(c.get_str("debug"), None);

    let map = parse_str("a.b = c").unwrap();
    assert!(matches!(map.get("a"), Some(Value::Namespace(_))));
}
