//! Tests of the locale source parser and the value round trip.

use pure_rust_locales::parser::{parse, parse_lang, Object, ParseErrorKind, Value};

fn run(key: &str, obj: &Object) -> Vec<Value> {
    for (k, vs) in obj.values.iter() {
        if k == key {
            return vs.clone();
        }
    }
    panic!("key not found: {}", key);
}

#[test]
fn lib_it_works() {
    let input = "comment_char %\nescape_char /\nLC_TIME\nd_fmt \"%d<U002F>%m<U002F>%y\"\nfirst_weekday 2\nEND LC_TIME";
    let objects = parse(input).unwrap();
    let obj = &objects[0];
    assert_eq!(run("d_fmt", obj), vec![Value::String("%d/%m/%y".to_string())]);
    assert_eq!(run("first_weekday", obj), vec![Value::Integer(2_i64)]);
}

#[test]
fn whole_category_shape() {
    let input = "comment_char %\nescape_char /\nLC_TIME\nd_fmt \"%d<U002F>%m<U002F>%y\"\nfirst_weekday 2\nEND LC_TIME";
    let objects = parse(input).unwrap();
    assert_eq!(objects.len(), 1);
    assert_eq!(objects[0].name, "LC_TIME");
    assert_eq!(
        objects[0].values,
        vec![
            ("d_fmt".to_string(), vec![Value::String("%d/%m/%y".to_string())]),
            ("first_weekday".to_string(), vec![Value::Integer(2)]),
        ]
    );
}

#[test]
fn two_empty_strings_one_run() {
    let input = "comment_char %\nescape_char /\nLC_TIME\nam_pm \"\";\"\"\nEND LC_TIME";
    let objects = parse(input).unwrap();
    assert_eq!(
        objects[0].values,
        vec![(
            "am_pm".to_string(),
            vec![Value::String(String::new()), Value::String(String::new())]
        )]
    );
}

#[test]
fn unicode_escape_decodes() {
    let input = "comment_char %\nescape_char /\nLC_X\nk \"caf<U00E9>\"\nEND LC_X";
    let objects = parse(input).unwrap();
    assert_eq!(run("k", &objects[0]), vec![Value::String("café".to_string())]);
}

#[test]
fn unicode_escape_invalid_hex_fails() {
    let input = "comment_char %\nescape_char /\nLC_X\nk \"<UGGGG>\"\nEND LC_X";
    let err = parse(input).unwrap_err();
    assert_eq!(err.kind, ParseErrorKind::InvalidUnicodeEscape);
}

#[test]
fn unicode_escape_surrogate_fails() {
    let input = "comment_char %\nescape_char /\nLC_X\nk \"<UD800>\"\nEND LC_X";
    let err = parse(input).unwrap_err();
    assert_eq!(err.kind, ParseErrorKind::InvalidUnicodeEscape);
}

#[test]
fn integer_overflow_fails() {
    let input = "comment_char %\nescape_char /\nLC_X\nk 99999999999999999999\nEND LC_X";
    let err = parse(input).unwrap_err();
    assert_eq!(err.kind, ParseErrorKind::IntegerOverflow);
}

#[test]
fn integer_extremes_parse() {
    let input =
        "comment_char %\nescape_char /\nLC_X\na -9223372036854775808\nb 9223372036854775807\nEND LC_X";
    let objects = parse(input).unwrap();
    assert_eq!(run("a", &objects[0]), vec![Value::Integer(i64::MIN)]);
    assert_eq!(run("b", &objects[0]), vec![Value::Integer(i64::MAX)]);
}

#[test]
fn unterminated_string_fails() {
    let input = "comment_char %\nescape_char /\nLC_X\nk \"abc\nEND LC_X";
    let err = parse(input).unwrap_err();
    assert_eq!(err.kind, ParseErrorKind::UnterminatedString);
}

#[test]
fn end_tag_must_repeat_name() {
    let input = "comment_char %\nescape_char /\nLC_TIME\nd_fmt \"x\"\nEND LC_MONETARY";
    let err = parse(input).unwrap_err();
    assert_eq!(err.kind, ParseErrorKind::TrailingContent);
}

#[test]
fn trailing_junk_fails() {
    let input = "comment_char %\nescape_char /\nLC_X\nEND LC_X\nleftover";
    let err = parse(input).unwrap_err();
    assert_eq!(err.kind, ParseErrorKind::TrailingContent);
}

#[test]
fn comments_and_blanks_are_skipped() {
    let input = "comment_char %\nescape_char /\n% a comment\n\nLC_X\n% another\nk 1\nEND LC_X\n% trailing\n";
    let objects = parse(input).unwrap();
    assert_eq!(objects.len(), 1);
    assert_eq!(run("k", &objects[0]), vec![Value::Integer(1)]);
}

#[test]
fn missing_preamble_defaults_to_hash_comments() {
    let input = "# a pinyin-style file without a preamble\nLC_X\nk v\nEND LC_X\n";
    let objects = parse(input).unwrap();
    assert_eq!(run("k", &objects[0]), vec![Value::Raw("v".to_string())]);
}

#[test]
fn escape_continues_value_lists() {
    let input = "comment_char %\nescape_char /\nLC_X\nk a /\n b\nEND LC_X";
    let objects = parse(input).unwrap();
    assert_eq!(
        run("k", &objects[0]),
        vec![Value::Raw("a".to_string()), Value::Raw("b".to_string())]
    );
}

#[test]
fn empty_slots_are_dropped() {
    let input = "comment_char %\nescape_char /\nLC_X\nk a;;b\nEND LC_X";
    let objects = parse(input).unwrap();
    assert_eq!(
        run("k", &objects[0]),
        vec![Value::Raw("a".to_string()), Value::Raw("b".to_string())]
    );
}

#[test]
fn escape_splices_in_raw_tokens() {
    let input = "comment_char %\nescape_char /\nLC_X\nk a/;b\nEND LC_X";
    let objects = parse(input).unwrap();
    assert_eq!(run("k", &objects[0]), vec![Value::Raw("a;b".to_string())]);
}

#[test]
fn line_continuation_inside_strings() {
    let input = "comment_char %\nescape_char /\nLC_X\nk \"ab/\ncd\"\nEND LC_X";
    let objects = parse(input).unwrap();
    assert_eq!(run("k", &objects[0]), vec![Value::String("abcd".to_string())]);
}

#[test]
fn bracketed_and_sentinel_keys() {
    let input = "comment_char %\nescape_char /\nLC_X\n<U0041> 1\n.. 2\nUNDEFINED 3\nEND LC_X";
    let objects = parse(input).unwrap();
    assert_eq!(run("U0041", &objects[0]), vec![Value::Integer(1)]);
    assert_eq!(run("..", &objects[0]), vec![Value::Integer(2)]);
    assert_eq!(run("UNDEFINED", &objects[0]), vec![Value::Integer(3)]);
}

#[test]
fn key_alone_has_no_values() {
    let input = "comment_char %\nescape_char /\nLC_X\nlonely\nother 1\nEND LC_X";
    let objects = parse(input).unwrap();
    assert_eq!(run("lonely", &objects[0]), Vec::<Value>::new());
    assert_eq!(run("other", &objects[0]), vec![Value::Integer(1)]);
}

#[test]
fn parse_lang_components() {
    assert_eq!(
        parse_lang("fr_BE").unwrap(),
        ("fr".to_string(), Some("BE".to_string()), None)
    );
    assert_eq!(
        parse_lang("wa_BE@euro").unwrap(),
        ("wa".to_string(), Some("BE".to_string()), Some("euro".to_string()))
    );
    assert_eq!(parse_lang("POSIX").unwrap(), ("POSIX".to_string(), None, None));
    assert!(parse_lang("translit").is_err());
    assert!(parse_lang("fr_BE1").is_err());
    assert!(parse_lang("").is_err());
}

#[test]
fn render_round_trips_integers() {
    for v in [
        Value::Integer(0),
        Value::Integer(2),
        Value::Integer(-42),
        Value::Integer(i64::MIN),
        Value::Integer(i64::MAX),
    ] {
        let text = v.render();
        let input = format!("comment_char %\nescape_char /\nLC_X\nk {}\nEND LC_X", text);
        let objects = parse(&input).unwrap();
        assert_eq!(run("k", &objects[0]), vec![v.clone()]);
    }
}

#[test]
fn render_round_trips_text() {
    let cases = [
        Value::String("plain".to_string()),
        Value::String(String::new()),
        Value::String("with \"quotes\" and /slash/ and <U0041>".to_string()),
        Value::Raw("token;with specials".to_string()),
    ];
    for v in cases {
        let text = v.render();
        let input = format!("comment_char %\nescape_char /\nLC_X\nk {}\nEND LC_X", text);
        let objects = parse(&input).unwrap();
        let expected = match &v {
            Value::Raw(s) => Value::String(s.clone()),
            other => other.clone(),
        };
        assert_eq!(run("k", &objects[0]), vec![expected]);
    }
}

#[test]
fn greedy_integer_precedence() {
    let input = "comment_char %\nescape_char /\nLC_X\nk 123\nEND LC_X";
    let objects = parse(input).unwrap();
    assert_eq!(run("k", &objects[0]), vec![Value::Integer(123)]);
    let input2 = "comment_char %\nescape_char /\nLC_X\nk 1-2\nEND LC_X";
    let objects2 = parse(input2).unwrap();
    assert_eq!(run("k", &objects2[0]), vec![Value::Raw("1-2".to_string())]);
}

#[test]
fn preamble_order_is_free() {
    let input = "escape_char /\ncomment_char ;\nLC_X\n; a comment\nk 1\nEND LC_X";
    let objects = parse(input).unwrap();
    assert_eq!(run("k", &objects[0]), vec![Value::Integer(1)]);
}

#[test]
fn half_a_preamble_fails() {
    let input = "comment_char %\nLC_X\nk 1\nEND LC_X";
    assert!(parse(input).is_err());
}

#[test]
fn repeated_declaration_overrides() {
    let input = "comment_char %\ncomment_char !\n! now the comment char\nLC_X\nk 1\nEND LC_X";
    let objects = parse(input).unwrap();
    assert_eq!(run("k", &objects[0]), vec![Value::Integer(1)]);
}

#[test]
fn several_categories_in_order() {
    let input = "comment_char %\nescape_char /\nLC_A\nx 1\nEND LC_A\nLC_B\ny 2\nEND LC_B";
    let objects = parse(input).unwrap();
    assert_eq!(objects.len(), 2);
    assert_eq!(objects[0].name, "LC_A");
    assert_eq!(objects[1].name, "LC_B");
}
