use rfind_url::{is_illegal, scheme, Parser, ParserState, State, SurroundCharacter};

fn reports(input: &str) -> Vec<ParserState> {
    let mut parser = Parser::new();
    input.chars().rev().map(|c| parser.advance(c)).collect()
}

fn urls(input: &str) -> Vec<(usize, usize)> {
    reports(input)
        .into_iter()
        .enumerate()
        .filter_map(|(i, r)| match r {
            ParserState::Url(len) => Some((i, len)),
            _ => None,
        })
        .collect()
}

#[test]
fn url_reported_only_at_its_first_character() {
    let r = reports("https://example.org");
    assert_eq!(r.len(), 19);
    for state in &r[..18] {
        assert_eq!(*state, ParserState::MaybeUrl);
    }
    assert_eq!(r[18], ParserState::Url(19));
}

#[test]
fn no_scheme_no_url() {
    assert!(urls("invalid://example.org").is_empty());
    assert!(urls("HTTPS://example.org").is_empty());
    assert!(urls("https:/example.org").is_empty());
    assert!(urls("https//example.org").is_empty());
    assert!(urls("plain text without any link").is_empty());
    assert!(urls("").is_empty());
}

#[test]
fn surrounds_inside_a_scheme_are_absorbed() {
    // The `)` is set aside as a pending surround, so the scheme still
    // matches and the reported length stops at it.
    assert_eq!(urls("ht)tps://x"), vec![(9, 2)]);
}

#[test]
fn parentheses_are_absorbed() {
    assert_eq!(urls("(https://example.org)"), vec![(19, 19)]);
    let plain = reports("https://example.org");
    let wrapped = reports("(https://example.org)");
    assert_eq!(wrapped[0], ParserState::MaybeUrl);
    assert_eq!(&wrapped[1..20], &plain[..]);
    assert_eq!(wrapped[20], ParserState::NoUrl);
}

#[test]
fn unbalanced_trailing_open_paren() {
    let r = reports("https://example.org(");
    assert_eq!(r[0], ParserState::NoUrl);
    assert_eq!(&r[1..], &reports("https://example.org")[..]);
}

#[test]
fn empty_surround_pair_ends_attempt() {
    let r = reports("https://example.org()");
    assert_eq!(r[0], ParserState::MaybeUrl);
    assert_eq!(r[1], ParserState::NoUrl);
    assert_eq!(r[20], ParserState::Url(19));
}

#[test]
fn pending_surround_is_left_out() {
    assert_eq!(urls("https://example.org]"), vec![(19, 19)]);
    assert_eq!(urls("https://example.org/a)"), vec![(21, 21)]);
}

#[test]
fn urls_do_not_bleed_into_each_other() {
    assert_eq!(
        urls("http://a.org https://b.org/x"),
        vec![(14, 15), (27, 12)]
    );
    let mut parser = Parser::new();
    for c in "https://example.org".chars().rev() {
        parser.advance(c);
    }
    assert_eq!(parser.state(), State::Default);
    assert_eq!(parser.scheme_indices(), [0u8; 8]);
    assert_eq!(parser.consumed(), 0);
}

#[test]
fn illegal_char_restarts() {
    let r = reports("https://example.org\u{7}");
    assert_eq!(r[0], ParserState::NoUrl);
    assert_eq!(r[19], ParserState::Url(19));
    assert_eq!(urls("https://example.org>"), vec![(19, 19)]);
    assert_eq!(urls("https://exa mple.org"), vec![(19, 11)]);
}

#[test]
fn reset_then_replay() {
    let mut parser = Parser::new();
    for c in "ttps://example.org".chars().rev() {
        assert_eq!(parser.advance(c), ParserState::MaybeUrl);
    }
    parser.reset();
    assert_eq!(parser.consumed(), 0);
    assert_eq!(parser.state(), State::Default);
    let mut last = ParserState::NoUrl;
    for c in "https://example.org".chars().rev() {
        last = parser.advance(c);
    }
    assert_eq!(last, ParserState::Url(19));
    parser.reset();
    parser.reset();
    assert_eq!(parser.advance('h'), ParserState::MaybeUrl);
}

#[test]
fn first_character_reports() {
    assert_eq!(Parser::new().advance(' '), ParserState::NoUrl);
    assert_eq!(Parser::new().advance('.'), ParserState::NoUrl);
    assert_eq!(Parser::new().advance('('), ParserState::NoUrl);
    assert_eq!(Parser::new().advance('['), ParserState::NoUrl);
    assert_eq!(Parser::new().advance('a'), ParserState::MaybeUrl);
    assert_eq!(Parser::new().advance(')'), ParserState::MaybeUrl);
    assert_eq!(Parser::new().advance('\''), ParserState::MaybeUrl);
}

#[test]
fn structural_states() {
    let mut parser = Parser::new();
    parser.advance('a');
    assert_eq!(parser.state(), State::Path);
    parser.advance('/');
    assert_eq!(parser.state(), State::SchemeFirstSlash);
    parser.advance('/');
    assert_eq!(parser.state(), State::SchemeSecondSlash);
    parser.advance(':');
    assert_eq!(parser.state(), State::Scheme);
    parser.advance('p');
    assert_eq!(parser.scheme_indices(), [1, 6, 7, 5, 5, 4, 4, 1]);
    assert_eq!(parser.consumed(), 5);
    assert_eq!(parser.advance('1'), ParserState::NoUrl);
    assert_eq!(parser.state(), State::Default);
}

#[test]
fn illegal_characters() {
    for c in ['\u{0}', '\u{1F}', '\u{7F}', '\u{9F}', '<', '>', '"', ' ', '{', '|', '}', '\\', '^', '⟨', '⟩', '`'] {
        assert!(is_illegal(c), "{:?}", c);
    }
    for c in ['a', '/', ':', '(', '\'', '\u{A0}', 'ü', '~'] {
        assert!(!is_illegal(c), "{:?}", c);
    }
}

#[test]
fn surround_members() {
    let bracket = SurroundCharacter::Bracket('(', ')');
    assert_eq!(*bracket.start(), ')');
    assert_eq!(*bracket.end(), '(');
    let quote = SurroundCharacter::Quote('\'');
    assert_eq!(*quote.start(), '\'');
    assert_eq!(*quote.end(), '\'');
}

#[test]
fn scheme_list() {
    let all: Vec<&str> = (0..8).map(scheme).collect();
    assert_eq!(all, vec!["http", "https", "mailto", "news", "file", "git", "ssh", "ftp"]);
}
