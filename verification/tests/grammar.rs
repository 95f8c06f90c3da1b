use cmdlog::command::Command;
use cmdlog::grammar::parse;

#[test]
fn parse_get_accepts() {
    match parse("GET foo") {
        Ok(Command::Get(k)) => assert_eq!(k, "foo"),
        r => panic!("expected Get(foo), got {:?}", r),
    }
}

#[test]
fn parse_set_accepts() {
    match parse("SET a b") {
        Ok(Command::Put(k, v)) => {
            assert_eq!(k, "a");
            assert_eq!(v, "b");
        },
        r => panic!("expected Put(a, b), got {:?}", r),
    }
}

#[test]
fn parse_del_accepts() {
    match parse("DEL a") {
        Ok(Command::Del(k)) => assert_eq!(k, "a"),
        r => panic!("expected Del(a), got {:?}", r),
    }
}

#[test]
fn parse_flush_accepts() {
    assert!(matches!(parse("FLUSH"), Ok(Command::Flush)));
}

#[test]
fn parse_incr_accepts() {
    match parse("INCR n") {
        Ok(Command::Incr(k)) => assert_eq!(k, "n"),
        r => panic!("expected Incr(n), got {:?}", r),
    }
}

#[test]
fn parse_set_missing_value_rejected() {
    let e = parse("SET a").unwrap_err();
    assert_eq!(e.trail, vec!["command".to_string(), "parse-set".to_string()]);
}

#[test]
fn parse_unknown_keyword_rejected() {
    let e = parse("FOO bar").unwrap_err();
    assert_eq!(e.trail, vec!["command".to_string()]);
}

#[test]
fn parse_empty_line_rejected() {
    let e = parse("").unwrap_err();
    assert_eq!(e.trail, vec!["command".to_string()]);
}

#[test]
fn parse_get_without_space_rejected() {
    let e = parse("GETx").unwrap_err();
    assert_eq!(e.trail, vec!["command".to_string(), "parse-get".to_string()]);
}

#[test]
fn parse_del_longer_word_rejected() {
    // "DELETE" begins with the DEL keyword but no whitespace follows it.
    let e = parse("DELETE a").unwrap_err();
    assert_eq!(e.trail, vec!["command".to_string(), "parse-delete".to_string()]);
}

#[test]
fn parse_incr_without_key_rejected() {
    let e = parse("INCR").unwrap_err();
    assert_eq!(e.trail, vec!["command".to_string(), "parse-incr".to_string()]);
}

#[test]
fn parse_truncated_keyword_rejected() {
    // "FLUS" is no keyword: not even FLUSH's rule is entered.
    let e = parse("FLUS").unwrap_err();
    assert_eq!(e.trail, vec!["command".to_string()]);
}

#[test]
fn parse_trailing_tokens_ignored() {
    // The grammar has no end-of-input rule: extra tokens are ignored.
    match parse("GET a b c") {
        Ok(Command::Get(k)) => assert_eq!(k, "a"),
        r => panic!("expected Get(a), got {:?}", r),
    }
}

#[test]
fn parse_flush_with_trailing_text() {
    // Even text glued to FLUSH is trailing input once the keyword matched.
    assert!(matches!(parse("FLUSHY"), Ok(Command::Flush)));
}

#[test]
fn parse_many_spaces_accepted() {
    match parse("SET   a    b") {
        Ok(Command::Put(k, v)) => {
            assert_eq!(k, "a");
            assert_eq!(v, "b");
        },
        r => panic!("expected Put(a, b), got {:?}", r),
    }
}

#[test]
fn parse_tab_separator_accepted() {
    match parse("GET\tkey9") {
        Ok(Command::Get(k)) => assert_eq!(k, "key9"),
        r => panic!("expected Get(key9), got {:?}", r),
    }
}

#[test]
fn parse_punctuated_key_stops_at_punctuation() {
    // A key is a maximal alphanumeric run; what follows is trailing input.
    match parse("GET a-b") {
        Ok(Command::Get(k)) => assert_eq!(k, "a"),
        r => panic!("expected Get(a), got {:?}", r),
    }
}
