use std::collections::HashMap;

use rfind_url::{scheme, Parser, ParserState, State, SCHEME_COUNT};

#[test]
fn no_scheme_conflicts() {
    for i in 0..SCHEME_COUNT {
        for j in 0..SCHEME_COUNT {
            if scheme(j) != scheme(i) {
                assert!(!scheme(i).ends_with(scheme(j)),);
            }
        }
    }
}

#[test]
fn index_lens() {
    assert_eq!(SCHEME_COUNT, Parser::new().scheme_indices().len());
}

#[test]
fn boundaries() {
    assert_eq!(max_len("before https://example.org after"), Some(19));

    assert_eq!(position("before https://example.org after"), (7, 6));
    assert_eq!(position("before https://example.org"), (7, 0));
    assert_eq!(position("https://example.org after"), (0, 6));
}

#[test]
fn start() {
    assert_eq!(max_len("https://example.org/test\u{00}ing"), Some(24));
    assert_eq!(max_len("https://example.org/test\u{1F}ing"), Some(24));
    assert_eq!(max_len("https://example.org/test\u{7F}ing"), Some(24));
    assert_eq!(max_len("https://example.org/test\u{9F}ing"), Some(24));
    assert_eq!(max_len("https://example.org/test\ting"), Some(24));
    assert_eq!(max_len("https://example.org/test ing"), Some(24));
    assert_eq!(max_len("https://example.org/test?ing"), Some(28));
    assert_eq!(max_len("https://example.org.,;:(!/?"), Some(19));
    assert_eq!(max_len("https://example.org/"), Some(20));
}

#[test]
fn end() {
    assert_eq!(max_len("complicated:https://example.org"), Some(19));
    assert_eq!(max_len("\u{2502}https://example.org"), Some(19));
    assert_eq!(max_len("test.https://example.org"), Some(19));
    assert_eq!(max_len("https://sub.example.org"), Some(23));
    assert_eq!(max_len(",https://example.org"), Some(19));
}

#[test]
fn url_unicode() {
    assert_eq!(max_len("https://xn--example-2b07f.org"), Some(29));
    assert_eq!(max_len("https://example.org/\u{2008A}"), Some(21));
    assert_eq!(max_len("https://example.org/\u{f17c}"), Some(21));
    assert_eq!(max_len("https://üñîçøðé.com/ä"), Some(21));
}

#[test]
fn url_schemes() {
    assert_eq!(max_len("invalidscheme://example.org"), None);
    assert_eq!(max_len("mailto://example.org"), Some(20));
    assert_eq!(max_len("https://example.org"), Some(19));
    assert_eq!(max_len("http://example.org"), Some(18));
    assert_eq!(max_len("news://example.org"), Some(18));
    assert_eq!(max_len("file://example.org"), Some(18));
    assert_eq!(max_len("git://example.org"), Some(17));
    assert_eq!(max_len("ssh://example.org"), Some(17));
    assert_eq!(max_len("ftp://example.org"), Some(17));
}

#[test]
fn url_matching_chars() {
    assert_eq!(max_len("(https://example.org/test(ing)/?)"), Some(30));
    assert_eq!(max_len("(https://example.org/test(ing))"), Some(29));
    assert_eq!(max_len("https://example.org/test(ing)"), Some(29));
    assert_eq!(max_len("((https://example.org))"), Some(19));
    assert_eq!(max_len(")https://example.org("), Some(19));
    assert_eq!(max_len("https://example.org)"), Some(19));
    assert_eq!(max_len("https://example.org("), Some(19));

    assert_eq!(max_len("https://[2001:db8:a0b:12f0::1]:80"), Some(33));
    assert_eq!(max_len("([(https://example.org/test(ing))])"), Some(29));
    assert_eq!(max_len("https://example.org/]()"), Some(20));
    assert_eq!(max_len("[https://example.org]"), Some(19));

    assert_eq!(max_len("'https://example.org/test'ing'''"), Some(29));
    assert_eq!(max_len("https://example.org/test'ing'"), Some(29));
    assert_eq!(max_len("'https://example.org'"), Some(19));
    assert_eq!(max_len("'https://example.org"), Some(19));
    assert_eq!(max_len("https://example.org'"), Some(19));
}

#[test]
fn markdown() {
    let input = "[test](https://example.org)";
    let mut result_map = HashMap::new();
    result_map.insert(19, Some(19));
    exact_url_match(input, result_map);

    let input = "[https://example.org](test)";
    let mut result_map = HashMap::new();
    result_map.insert(25, Some(19));
    exact_url_match(input, result_map);

    let input = "[https://example.org](https://example.org/longer)";
    let mut result_map = HashMap::new();
    result_map.insert(26, Some(26));
    result_map.insert(47, Some(19));
    exact_url_match(input, result_map);
}

#[test]
fn multiple_urls() {
    let input = "test https://example.org illegal://example.com https://example.com/test 123";
    let mut result_map = HashMap::new();
    result_map.insert(27, Some(24));
    result_map.insert(69, Some(19));
    exact_url_match(input, result_map);
}

#[test]
fn reset_on_match() {
    let mut parser = Parser::new();

    for c in "https://example.org".chars().rev() {
        parser.advance(c);
    }

    assert_eq!(parser.state(), State::Default);
}

fn url_len(state: ParserState) -> Option<usize> {
    match state {
        ParserState::Url(len) => Some(len),
        _ => None,
    }
}

fn exact_url_match(input: &str, result_map: HashMap<usize, Option<usize>>) {
    let mut parser = Parser::new();

    for (i, c) in input.chars().rev().enumerate() {
        let result = url_len(parser.advance(c));

        if let Some(expected) = result_map.get(&i) {
            assert_eq!(&result, expected);
        } else {
            assert_eq!(result, None);
        }
    }
}

fn max_len(input: &str) -> Option<usize> {
    let mut parser = Parser::new();
    let mut found = None;

    for c in input.chars().rev() {
        if let Some(len) = url_len(parser.advance(c)) {
            found = Some(len);
        }
    }

    found
}

fn position(input: &str) -> (usize, usize) {
    let mut parser = Parser::new();
    let mut position_right = 0usize;
    let mut position_left = 0usize;
    let mut found = None;

    for c in input.chars().rev() {
        if found.is_some() {
            position_left += 1;
        } else {
            position_right += 1;
        }

        if let Some(len) = url_len(parser.advance(c)) {
            found = Some(len);
        }
    }

    if let Some(len) = found {
        position_right = position_right.saturating_sub(len);
    }

    (position_left, position_right)
}
