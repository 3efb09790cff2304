use md_parser::ast::{HeaderLevel, Line, Token};
use md_parser::builder::Builder;
use md_parser::collector::RecordingCollector;
use md_parser::lexer::Lexer;
use md_parser::inline_parser::Token as SpanToken;
use md_parser::parser::{parse_document, Parser};

fn parse(input: &str) -> Vec<Line> {
    parse_document(input)
}

fn reg(s: &str) -> Token {
    Token::Regular(s.to_string())
}

#[test]
fn header_every_level() {
    for (k, level) in [
        (1, HeaderLevel::H1),
        (2, HeaderLevel::H2),
        (3, HeaderLevel::H3),
        (4, HeaderLevel::H4),
        (5, HeaderLevel::H5),
        (6, HeaderLevel::H6),
    ] {
        let input = format!("{} one two", "#".repeat(k));
        assert_eq!(
            parse(&input),
            vec![Line::Header {
                level,
                tokens: vec![reg("one"), reg("two")]
            }]
        );
    }
}

#[test]
fn seven_hashes_is_no_header() {
    assert_eq!(
        parse("####### seven"),
        vec![Line::Paragraph(vec![reg("seven")])]
    );
}

#[test]
fn bare_hash_is_empty_header() {
    assert_eq!(
        parse("#"),
        vec![Line::Header {
            level: HeaderLevel::H1,
            tokens: vec![]
        }]
    );
}

#[test]
fn hash_without_space_drops_introducer() {
    assert_eq!(parse("#x rest"), vec![Line::Paragraph(vec![reg("rest")])]);
}

#[test]
fn plain_paragraph_words_in_order() {
    assert_eq!(
        parse("  one two   three "),
        vec![Line::Paragraph(vec![reg("one"), reg("two"), reg("three")])]
    );
}

#[test]
fn delimiter_choice_makes_no_difference() {
    assert_eq!(parse("**bold**"), parse("__bold__"));
    assert_eq!(parse("*italic*"), parse("_italic_"));
    assert_eq!(parse("***both***"), parse("___both___"));
    assert_eq!(
        parse("__bold__"),
        vec![Line::Paragraph(vec![Token::Bold(vec![reg("bold")])])]
    );
    assert_eq!(
        parse("_italic_"),
        vec![Line::Paragraph(vec![Token::Italic(vec![reg("italic")])])]
    );
}

#[test]
fn trailing_period_stays_inside_the_span() {
    assert_eq!(
        parse("a **bold with spaces**."),
        vec![Line::Paragraph(vec![
            reg("a"),
            Token::Bold(vec![reg("bold"), reg("with"), reg("spaces.")])
        ])]
    );
}

#[test]
fn multi_word_link_label() {
    assert_eq!(
        parse("and [Another Link](https://b.com) with spaces"),
        vec![Line::Paragraph(vec![
            reg("and"),
            Token::Link {
                label: vec![reg("Another"), reg("Link")],
                url: "https://b.com".to_string()
            },
            reg("with"),
            reg("spaces"),
        ])]
    );
}

#[test]
fn composite_emphasis_with_underscores() {
    assert_eq!(
        parse("___a___"),
        vec![Line::Paragraph(vec![Token::Bold(vec![Token::Italic(
            vec![reg("a")]
        )])])]
    );
}

#[test]
fn blank_lines_keep_their_places() {
    assert_eq!(
        parse("a\n\n   \nb"),
        vec![
            Line::Paragraph(vec![reg("a")]),
            Line::Blank,
            Line::Blank,
            Line::Paragraph(vec![reg("b")]),
        ]
    );
    assert_eq!(parse(""), Vec::<Line>::new());
    assert_eq!(parse("\n"), vec![Line::Blank]);
}

#[test]
fn one_document_line_per_source_line() {
    let input = "# Title\nwords here\n\n![pic](https://a.com)\n*i*";
    let doc = parse(input);
    assert_eq!(doc.len(), input.lines().count());
}

#[test]
fn image_line_fills_label_and_url() {
    assert_eq!(
        parse("![image](https://www.a.com)"),
        vec![Line::Image {
            label: vec![reg("image")],
            url: "https://www.a.com".to_string()
        }]
    );
}

#[test]
fn inline_code_through_the_pipeline() {
    assert_eq!(
        parse("`code`"),
        vec![Line::Paragraph(vec![Token::InlineCode(vec![reg("code")])])]
    );
}

#[test]
fn unmatched_closers_never_abort() {
    let mut parser = Parser::new(Builder::new());
    parser.parse("a** b*");
    assert!(!parser.failed());
    assert_eq!(
        parser.get_document(),
        vec![Line::Paragraph(vec![reg("a"), reg("b")])]
    );
}

#[test]
fn round_trip_reproduces_the_document() {
    fn word_of(t: &Token) -> String {
        match t {
            Token::Regular(w) => w.clone(),
            _ => panic!("only regular words are written back"),
        }
    }
    fn render_line(l: &Line) -> String {
        match l {
            Line::Blank => String::new(),
            Line::Paragraph(ts) => ts
                .iter()
                .map(word_of)
                .collect::<Vec<String>>()
                .join(" "),
            Line::Header { level, tokens } => {
                let k = match level {
                    HeaderLevel::H1 => 1,
                    HeaderLevel::H2 => 2,
                    HeaderLevel::H3 => 3,
                    HeaderLevel::H4 => 4,
                    HeaderLevel::H5 => 5,
                    HeaderLevel::H6 => 6,
                };
                let words = tokens.iter().map(word_of).collect::<Vec<String>>().join(" ");
                format!("{} {}", "#".repeat(k), words)
            }
            Line::Image { .. } => panic!("images are not written back"),
        }
    }

    let input = "# Title\nhello world\n\nbye";
    let doc = parse(input);
    let rendered = doc
        .iter()
        .map(render_line)
        .collect::<Vec<String>>()
        .join("\n");
    assert_eq!(rendered, input);
    assert_eq!(parse(&rendered), doc);
}

#[test]
fn empty_input_reports_nothing() {
    let mut lexer = Lexer::new(RecordingCollector::new());
    lexer.lex("");
    let mock = lexer.into_collector();
    assert!(mock.log.is_empty());
}

#[test]
fn builder_can_be_driven_directly() {
    let mut builder = Builder::new();
    builder.add_text();
    builder.add_word("x");
    builder.end_line();
    assert_eq!(
        builder.get_document(),
        vec![Line::Paragraph(vec![reg("x")])]
    );
}

#[test]
fn unclosed_emphasis_is_a_plain_word() {
    let token = "*unclosed".parse::<SpanToken>().unwrap();
    assert_eq!(token, SpanToken::Regular("*unclosed".to_string()));

    let empty = "".parse::<SpanToken>().unwrap();
    assert_eq!(empty, SpanToken::Regular(String::new()));
}

#[test]
fn multi_word_label_with_trailing_period() {
    assert_eq!(
        parse("[Multi word](https://b.com)."),
        vec![Line::Paragraph(vec![
            Token::Link {
                label: vec![reg("Multi"), reg("word")],
                url: "https://b.com".to_string()
            },
            reg("."),
        ])]
    );
}

#[test]
fn bare_delimiters_do_not_abort() {
    assert_eq!(parse("**"), vec![Line::Paragraph(vec![])]);
    assert_eq!(parse("*"), vec![Line::Paragraph(vec![])]);
    assert_eq!(parse("***"), vec![Line::Paragraph(vec![])]);
}
