use md_parser::ast::{HeaderLevel, Line, Token};
use md_parser::ast::HeaderLevel::{H1, H2, H3};
use md_parser::ast::Token::{Bold, Italic, Link, Regular};
use md_parser::builder::Builder;
use md_parser::parser::Parser;

fn parse(input: &str) -> Vec<Line> {
    let mut parser = Parser::new(Builder::new());
    parser.parse(input);
    parser.get_document()
}

#[test]
fn parse_header() {
    assert_eq!(
        parse("# H1"),
        vec![Line::Header {
            level: H1,
            tokens: vec![Regular("H1".into())]
        }]
    );

    assert_eq!(
        parse("## H2"),
        vec![Line::Header {
            level: H2,
            tokens: vec![Regular("H2".into())]
        }]
    );

    assert_eq!(
        parse("### H3"),
        vec![Line::Header {
            level: H3,
            tokens: vec![Regular("H3".into())]
        }]
    );
}

#[test]
fn parse_bold() {
    assert_eq!(
        parse("**bold**"),
        &[Line::Paragraph(vec![Bold(vec![Regular(
            "bold".to_string()
        )])])]
    );
}

#[test]
fn parse_italic() {
    assert_eq!(
        parse("*italic*"),
        &[Line::Paragraph(vec![Italic(vec![Regular(
            "italic".to_string()
        )])])]
    );
}

#[test]
fn parse_parse_link() {
    assert_eq!(
        parse("[Link](https://a.com)"),
        &[Line::Paragraph(vec![Link {
            label: vec![Token::Regular("Link".to_string())],
            url: "https://a.com".to_string()
        }])]
    );
}

#[test]
fn parse_parse_bold_link() {
    assert_eq!(
        parse("**[Bold](https://a.com)**"),
        &[Line::Paragraph(vec![Bold(vec![Link {
            label: vec![Regular("Bold".to_string())],
            url: "https://a.com".to_string()
        }])])]
    );
}

#[test]
fn parse_bold_italic() {
    assert_eq!(
        parse("***strong emph***"),
        vec![Line::Paragraph(vec![Bold(vec![Italic(vec![
            Regular("strong".into()),
            Regular("emph".into())
        ])])])]
    );
}
