use md_parser::inline_parser::{Token, Url};
use md_parser::inline_parser::Token::{Emphasis, InlineCode, Regular, Strong, StrongEmphasis};

#[test]
fn parse_inline_code() {
    let token = "`hello world`".parse::<Token>().unwrap();

    assert_eq!(
        token,
        Token::InlineCode(vec!["hello".to_string(), "world".to_string()])
    );
}

#[test]
fn parse_strong() {
    let token = "**hello world**".parse::<Token>().unwrap();

    assert_eq!(
        token,
        Token::Strong(vec![
            Token::Regular("hello".to_string()),
            Token::Regular("world".to_string())
        ])
    );
}

#[test]
fn parse_strong_inline() {
    let token = "**`bold inline code`**".parse::<Token>().unwrap();

    assert_eq!(
        token,
        Strong(vec![InlineCode(vec![
            "bold".to_string(),
            "inline".to_string(),
            "code".to_string()
        ])])
    );
}

#[test]
fn parse_emphasis() {
    let token = "*hello world*".parse::<Token>().unwrap();

    assert_eq!(
        token,
        Emphasis(vec![
            Regular("hello".to_string()),
            Regular("world".to_string()),
        ])
    );
}

#[test]
fn parse_emphasis_inline() {
    let token = "*`italic inline code`*".parse::<Token>().unwrap();

    assert_eq!(
        token,
        Emphasis(vec![InlineCode(vec![
            "italic".to_string(),
            "inline".to_string(),
            "code".to_string()
        ])])
    );
}

#[test]
fn parse_strong_emphasis() {
    let token = "***hello world***".parse::<Token>().unwrap();

    assert_eq!(
        token,
        StrongEmphasis(vec![
            Regular("hello".to_string()),
            Regular("world".to_string()),
        ])
    );
}

#[test]
fn parse_strong_emphasis_inline() {
    let token = "***`bold italic inline code`***".parse::<Token>().unwrap();

    assert_eq!(
        token,
        StrongEmphasis(vec![InlineCode(vec![
            "bold".to_string(),
            "italic".to_string(),
            "inline".to_string(),
            "code".to_string()
        ])])
    );
}

#[test]
fn parse_link_with_title() {
    let token = "[hello world](https://example.com \"title\")"
        .parse::<Token>()
        .unwrap();

    assert_eq!(
        token,
        Token::Link {
            label: vec![Regular("hello".to_string()), Regular("world".to_string())],
            url: Url::Inline {
                url: "https://example.com".to_string(),
                title: "title".to_string().into()
            }
        }
    );
}

#[test]
fn nom_parser_parse_link() {
    let token = "[hello world](https://example.com)"
        .parse::<Token>()
        .unwrap();

    assert_eq!(
        token,
        Token::Link {
            label: vec![Regular("hello".to_string()), Regular("world".to_string())],
            url: Url::Inline {
                url: "https://example.com".to_string(),
                title: None
            }
        }
    );
}

#[test]
fn parse_link_with_reference() {
    let token1 = "[hello world][ref]".parse::<Token>().unwrap();
    let token2 = "[hello world] [ref]".parse::<Token>().unwrap();

    let parsed_token = Token::Link {
        label: vec![Regular("hello".to_string()), Regular("world".to_string())],
        url: Url::Reference("ref".to_string()),
    };

    assert_eq!(token1, parsed_token);
    assert_eq!(token2, parsed_token);
}

#[test]
fn nom_parser_parse_bold_link() {
    let token = "[**hello world**](https://example.com)"
        .parse::<Token>()
        .unwrap();

    assert_eq!(
        token,
        Token::Link {
            label: vec![Strong(vec![
                Regular("hello".to_string()),
                Regular("world".to_string())
            ])],
            url: Url::Inline {
                url: "https://example.com".to_string(),
                title: None
            }
        }
    );
}
