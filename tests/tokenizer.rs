use std::collections::VecDeque;
use yaml_lexer::tokenizer::{fold_breaks, insert_from_end, tokenize};
use yaml_lexer::{CharacterPosition, LexErr, Lexer, YamlToken, YamlTokenType};

fn lexer_of(s: &str) -> Lexer {
    Lexer::new(s.chars().collect())
}

fn at(index: usize, line: usize, column: usize) -> CharacterPosition {
    CharacterPosition { index, line, column }
}

fn scalar(s: &str) -> YamlTokenType {
    YamlTokenType::Scalar(s.to_string())
}

fn pull_kind(lexer: &mut Lexer) -> YamlTokenType {
    let tok = lexer.next().unwrap();
    println!("matched token: {:?}", tok);
    tok.1
}

#[test]
fn test_simple_kv() {
    let s = "
        key1: value1
        key2: value2
        ";
    // result should have 2 Keys and 2 Values
    let mut lexer = lexer_of(s);
    assert!(matches!(pull_kind(&mut lexer), YamlTokenType::Start));
    assert!(matches!(pull_kind(&mut lexer), YamlTokenType::Key));
    assert!(matches!(pull_kind(&mut lexer), YamlTokenType::Scalar(_)));
    assert!(matches!(pull_kind(&mut lexer), YamlTokenType::Value));
    assert!(matches!(pull_kind(&mut lexer), YamlTokenType::Scalar(_)));
    assert!(matches!(pull_kind(&mut lexer), YamlTokenType::Key));
    assert!(matches!(pull_kind(&mut lexer), YamlTokenType::Scalar(_)));
    assert!(matches!(pull_kind(&mut lexer), YamlTokenType::Value));
    assert!(matches!(pull_kind(&mut lexer), YamlTokenType::Scalar(_)));
    assert!(matches!(pull_kind(&mut lexer), YamlTokenType::End));
    assert_eq!(lexer.queue_len(), 0);
}

#[test]
#[should_panic]
fn test_bad_yaml() {
    let s = "
        key1 - value1
        ";
    let mut lexer = lexer_of(s);
    match pull_kind(&mut lexer) {
        YamlTokenType::Start => {}
        other => panic!("unexpected token: {:?}", other),
    }
    match pull_kind(&mut lexer) {
        YamlTokenType::Key => {}
        other => panic!("unexpected token: {:?}", other),
    }
}

#[test]
fn two_key_value_lines_give_exact_tokens() {
    let toks = tokenize("key1: value1\nkey2: value2\n".chars().collect()).unwrap();
    let expected = vec![
        YamlToken(at(0, 1, 0), YamlTokenType::Start),
        YamlToken(at(0, 1, 0), YamlTokenType::Key),
        YamlToken(at(0, 1, 0), scalar("key1")),
        YamlToken(at(6, 1, 6), YamlTokenType::Value),
        YamlToken(at(6, 1, 6), scalar("value1")),
        YamlToken(at(13, 2, 0), YamlTokenType::Key),
        YamlToken(at(13, 2, 0), scalar("key2")),
        YamlToken(at(19, 2, 6), YamlTokenType::Value),
        YamlToken(at(19, 2, 6), scalar("value2")),
        YamlToken(at(26, 3, 0), YamlTokenType::End),
    ];
    assert_eq!(toks, expected);
}

#[test]
fn many_key_value_lines_repeat_the_pattern_and_empty_the_queue() {
    let mut lexer = lexer_of("a: 1\nbb: 22\nccc: 333\n");
    let mut kinds = Vec::new();
    while let Some(t) = lexer.next() {
        kinds.push(t.1);
    }
    let expected = vec![
        YamlTokenType::Start,
        YamlTokenType::Key,
        scalar("a"),
        YamlTokenType::Value,
        scalar("1"),
        YamlTokenType::Key,
        scalar("bb"),
        YamlTokenType::Value,
        scalar("22"),
        YamlTokenType::Key,
        scalar("ccc"),
        YamlTokenType::Value,
        scalar("333"),
        YamlTokenType::End,
    ];
    assert_eq!(kinds, expected);
    assert_eq!(lexer.queue_len(), 0);
    assert!(lexer.error().is_none());
}

#[test]
fn comment_only_gives_start_and_end() {
    let toks = tokenize("   # a comment\n".chars().collect()).unwrap();
    assert_eq!(
        toks,
        vec![
            YamlToken(at(0, 1, 0), YamlTokenType::Start),
            YamlToken(at(15, 2, 0), YamlTokenType::End),
        ]
    );
}

#[test]
fn empty_input_gives_start_and_end() {
    let toks = tokenize(Vec::new()).unwrap();
    assert_eq!(
        toks,
        vec![
            YamlToken(at(0, 1, 0), YamlTokenType::Start),
            YamlToken(at(0, 1, 0), YamlTokenType::End),
        ]
    );
}

#[test]
fn end_moves_to_a_fresh_line() {
    let toks = tokenize("k: v".chars().collect()).unwrap();
    assert_eq!(toks.last().unwrap(), &YamlToken(at(4, 2, 0), YamlTokenType::End));
}

#[test]
fn missing_separator_is_an_unknown_token() {
    let r = tokenize("\n        key1 - value1\n        ".chars().collect());
    assert_eq!(r, Err(LexErr::UnknownToken("key1".to_string(), at(9, 2, 8))));
}

#[test]
fn bare_scalar_is_an_unknown_token() {
    let r = tokenize("lonely".chars().collect());
    assert_eq!(r, Err(LexErr::UnknownToken("lonely".to_string(), at(0, 1, 0))));
}

#[test]
fn separator_without_key_is_an_unknown_token() {
    let r = tokenize(": value".chars().collect());
    assert_eq!(r, Err(LexErr::UnknownToken(String::new(), at(0, 1, 0))));
}

#[test]
fn second_separator_on_a_line_is_an_unknown_token() {
    let r = tokenize("a: b: c".chars().collect());
    assert_eq!(r, Err(LexErr::UnknownToken(String::new(), at(4, 1, 4))));
}

#[test]
fn error_is_sticky_and_pulls_after_it_are_none() {
    let mut lexer = lexer_of("key1 - value1");
    assert_eq!(lexer.next().unwrap().1, YamlTokenType::Start);
    assert!(lexer.next().is_none());
    let err = Some(LexErr::UnknownToken("key1".to_string(), at(0, 1, 0)));
    assert_eq!(lexer.error(), &err);
    for _ in 0..3 {
        assert!(lexer.next().is_none());
        assert_eq!(lexer.error(), &err);
    }
    assert_eq!(lexer.into_error(), err);
}

#[test]
fn pulls_after_end_stay_none() {
    let mut lexer = lexer_of("k: v\n");
    let mut n = 0;
    while lexer.next().is_some() {
        n += 1;
    }
    assert_eq!(n, 6);
    for _ in 0..3 {
        assert!(lexer.next().is_none());
        assert_eq!(lexer.queue_len(), 0);
        assert!(lexer.error().is_none());
    }
}

#[test]
fn positions_never_go_back() {
    let toks = tokenize("# head\nalpha: one\n  beta: two # c\r\ngamma: three".chars().collect())
        .unwrap();
    for w in toks.windows(2) {
        assert!(w[0].0.index() <= w[1].0.index());
    }
    assert_eq!(toks.len(), 14);
}

#[test]
fn crlf_is_one_line_break() {
    let toks = tokenize("a: b\r\nc: d\r\n".chars().collect()).unwrap();
    assert_eq!(toks[5], YamlToken(at(6, 2, 0), YamlTokenType::Key));
    assert_eq!(toks[6], YamlToken(at(6, 2, 0), scalar("c")));
    assert_eq!(toks.last().unwrap(), &YamlToken(at(12, 3, 0), YamlTokenType::End));
}

#[test]
fn comment_after_separator_gives_empty_value() {
    let toks = tokenize("key: # note\n".chars().collect()).unwrap();
    assert_eq!(toks[4], YamlToken(at(5, 1, 5), scalar("")));
    assert_eq!(toks[5].1, YamlTokenType::End);
}

#[test]
fn colon_inside_text_stays_in_the_scalar() {
    let toks = tokenize("url: http://x\n".chars().collect()).unwrap();
    assert_eq!(toks[4].1, scalar("http://x"));
}

#[test]
fn nul_character_ends_the_stream() {
    let toks = tokenize("a: b\n\0c: d\n".chars().collect()).unwrap();
    assert_eq!(toks.len(), 6);
    assert_eq!(toks[5], YamlToken(at(5, 2, 0), YamlTokenType::End));
}

#[test]
fn separator_at_end_of_input() {
    let toks = tokenize("k:".chars().collect()).unwrap();
    let kinds: Vec<YamlTokenType> = toks.into_iter().map(|t| t.1).collect();
    assert_eq!(
        kinds,
        vec![
            YamlTokenType::Start,
            YamlTokenType::Key,
            scalar("k"),
            YamlTokenType::Value,
            scalar(""),
            YamlTokenType::End,
        ]
    );
}

#[test]
fn folding_one_break_gives_one_space() {
    let mut s = String::from("first");
    fold_breaks(&mut s, 1);
    assert_eq!(s, "first ");
    let mut t = String::from("x");
    fold_breaks(&mut t, 0);
    assert_eq!(t, "x ");
}

#[test]
fn folding_several_breaks_gives_as_many_newlines() {
    let mut s = String::from("a");
    fold_breaks(&mut s, 3);
    assert_eq!(s, "a\n\n\n");
}

#[test]
fn bare_scalar_on_a_later_line_stops_the_scan() {
    let mut lexer = lexer_of("a: b\nc\nd: e\n");
    let mut kinds = Vec::new();
    while let Some(t) = lexer.next() {
        kinds.push(t.1);
    }
    assert_eq!(
        kinds,
        vec![YamlTokenType::Start, YamlTokenType::Key, scalar("a"), YamlTokenType::Value, scalar("b")]
    );
    assert_eq!(lexer.error(), &Some(LexErr::UnknownToken("c".to_string(), at(5, 2, 0))));
    assert!(lexer.next().is_none());
}

#[test]
fn insert_from_end_counts_from_the_tail() {
    let mut v: VecDeque<i32> = VecDeque::from(vec![1, 2, 3]);
    insert_from_end(&mut v, 0, 9);
    assert_eq!(v, VecDeque::from(vec![1, 2, 9, 3]));
    let mut w: VecDeque<i32> = VecDeque::from(vec![1, 2, 3]);
    insert_from_end(&mut w, 1, 9);
    assert_eq!(w, VecDeque::from(vec![1, 9, 2, 3]));
    let mut x: VecDeque<i32> = VecDeque::from(vec![1, 2, 3]);
    insert_from_end(&mut x, 5, 9);
    assert_eq!(x, VecDeque::from(vec![9, 1, 2, 3]));
    let mut e: VecDeque<i32> = VecDeque::new();
    insert_from_end(&mut e, 0, 9);
    assert_eq!(e, VecDeque::from(vec![9]));
}

#[test]
fn lone_carriage_return_is_a_line_break() {
    let toks = tokenize("a: b\rc: d\r".chars().collect()).unwrap();
    assert_eq!(toks[5], YamlToken(at(5, 2, 0), YamlTokenType::Key));
    assert_eq!(toks.last().unwrap(), &YamlToken(at(10, 3, 0), YamlTokenType::End));
}

#[test]
fn indented_lines_comments_and_blank_lines() {
    let toks = tokenize("# top\n\n  a: 1 # one\n    bb: 22\n\n".chars().collect()).unwrap();
    let kinds: Vec<YamlTokenType> = toks.iter().map(|t| t.1.clone()).collect();
    assert_eq!(
        kinds,
        vec![
            YamlTokenType::Start,
            YamlTokenType::Key,
            scalar("a"),
            YamlTokenType::Value,
            scalar("1"),
            YamlTokenType::Key,
            scalar("bb"),
            YamlTokenType::Value,
            scalar("22"),
            YamlTokenType::End,
        ]
    );
    assert_eq!(toks[1], YamlToken(at(9, 3, 2), YamlTokenType::Key));
    assert_eq!(toks[3], YamlToken(at(12, 3, 5), YamlTokenType::Value));
}
