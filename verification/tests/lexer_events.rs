use md_parser::collector::{Event, RecordingCollector};
use md_parser::lexer::Lexer;

fn strings(events: &[Event]) -> Vec<String> {
    events
        .iter()
        .map(|e| match e {
            Event::H1 => "h1".to_string(),
            Event::H2 => "h2".to_string(),
            Event::H3 => "h3".to_string(),
            Event::H4 => "h4".to_string(),
            Event::H5 => "h5".to_string(),
            Event::H6 => "h6".to_string(),
            Event::BeginBold => "begin_bold".to_string(),
            Event::EndBold => "end_bold".to_string(),
            Event::BeginItalic => "begin_italic".to_string(),
            Event::EndItalic => "end_italic".to_string(),
            Event::BeginInlineCode => "begin_inline_code".to_string(),
            Event::EndInlineCode => "end_inline_code".to_string(),
            Event::BeginLabel => "begin_label".to_string(),
            Event::EndLabel => "end_label".to_string(),
            Event::Url(u) => format!("url({})", u),
            Event::Word(w) => format!("word({})", w),
            Event::Image => "img".to_string(),
            Event::LineBreak => "line_break".to_string(),
        })
        .collect()
}

#[test]
fn lex_header() {
    let mut lexer = Lexer::new(RecordingCollector::new());
    lexer.lex("# H1\n## H2\n### H3\n#### H4\n##### H5\n###### H6");
    let mock = lexer.into_collector();

    assert_eq!(
        strings(&mock.log),
        vec![
            "h1",
            "word(H1)",
            "line_break",
            "h2",
            "word(H2)",
            "line_break",
            "h3",
            "word(H3)",
            "line_break",
            "h4",
            "word(H4)",
            "line_break",
            "h5",
            "word(H5)",
            "line_break",
            "h6",
            "word(H6)",
            "line_break"
        ]
    );
}

#[test]
fn lex_bold() {
    let mut lexer = Lexer::new(RecordingCollector::new());
    lexer.lex("**bold**");
    lexer.lex("regular **bold** word");
    lexer.lex("and __another__ bold word");
    lexer.lex("a **bold with spaces**.");
    let mock = lexer.into_collector();

    assert_eq!(
        strings(&mock.log),
        vec![
            "begin_bold",
            "word(bold)",
            "end_bold",
            "line_break",
            "word(regular)",
            "begin_bold",
            "word(bold)",
            "end_bold",
            "word(word)",
            "line_break",
            "word(and)",
            "begin_bold",
            "word(another)",
            "end_bold",
            "word(bold)",
            "word(word)",
            "line_break",
            "word(a)",
            "begin_bold",
            "word(bold)",
            "word(with)",
            "word(spaces.)",
            "end_bold",
            "line_break"
        ]
    );
}

#[test]
fn lex_italic() {
    let mut lexer = Lexer::new(RecordingCollector::new());
    lexer.lex("regular *italic* word");
    lexer.lex("and _italic_ bold word");
    lexer.lex("a *italic with spaces*.");
    let mock = lexer.into_collector();

    assert_eq!(
        strings(&mock.log),
        vec![
            "word(regular)",
            "begin_italic",
            "word(italic)",
            "end_italic",
            "word(word)",
            "line_break",
            "word(and)",
            "begin_italic",
            "word(italic)",
            "end_italic",
            "word(bold)",
            "word(word)",
            "line_break",
            "word(a)",
            "begin_italic",
            "word(italic)",
            "word(with)",
            "word(spaces.)",
            "end_italic",
            "line_break"
        ]
    );
}

#[test]
fn lex_link() {
    let mut lexer = Lexer::new(RecordingCollector::new());
    lexer.lex("a regular [Link](https://a.com)");
    lexer.lex("and [Another Link](https://b.com) with spaces");
    lexer.lex("a [Link](https://a.com).");
    let mock = lexer.into_collector();

    assert_eq!(
        strings(&mock.log),
        vec![
            "word(a)",
            "word(regular)",
            "begin_label",
            "word(Link)",
            "end_label",
            "url(https://a.com)",
            "line_break",
            "word(and)",
            "begin_label",
            "word(Another)",
            "word(Link)",
            "end_label",
            "url(https://b.com)",
            "word(with)",
            "word(spaces)",
            "line_break",
            "word(a)",
            "begin_label",
            "word(Link)",
            "end_label",
            "url(https://a.com)",
            "word(.)",
            "line_break"
        ]
    );
}

#[test]
fn bold_link() {
    let mut lexer = Lexer::new(RecordingCollector::new());
    lexer.lex("**[Bold](https://a.com)**");
    let mock = lexer.into_collector();

    assert_eq!(
        strings(&mock.log),
        vec![
            "begin_bold",
            "begin_label",
            "word(Bold)",
            "end_label",
            "url(https://a.com)",
            "end_bold",
            "line_break"
        ]
    );
}

#[test]
fn bold_link_with_spaces() {
    let mut lexer = Lexer::new(RecordingCollector::new());
    lexer.lex("**[Bold Link](https://a.com)**");
    let mock = lexer.into_collector();

    assert_eq!(
        strings(&mock.log),
        vec![
            "begin_bold",
            "begin_label",
            "word(Bold)",
            "word(Link)",
            "end_label",
            "url(https://a.com)",
            "end_bold",
            "line_break"
        ]
    );
}

#[test]
fn italic_link() {
    let mut lexer = Lexer::new(RecordingCollector::new());
    lexer.lex("*[Italic](https://a.com)*");
    let mock = lexer.into_collector();

    assert_eq!(
        strings(&mock.log),
        vec![
            "begin_italic",
            "begin_label",
            "word(Italic)",
            "end_label",
            "url(https://a.com)",
            "end_italic",
            "line_break"
        ]
    );
}

#[test]
fn italic_link_with_spaces() {
    let mut lexer = Lexer::new(RecordingCollector::new());
    lexer.lex("*[Italic Link](https://a.com)*");
    let mock = lexer.into_collector();

    assert_eq!(
        strings(&mock.log),
        vec![
            "begin_italic",
            "begin_label",
            "word(Italic)",
            "word(Link)",
            "end_label",
            "url(https://a.com)",
            "end_italic",
            "line_break"
        ]
    );
}

#[test]
fn link_header() {
    let mut lexer = Lexer::new(RecordingCollector::new());
    lexer.lex("# [Header](https://a.com)");
    let mock = lexer.into_collector();

    assert_eq!(
        strings(&mock.log),
        vec![
            "h1",
            "begin_label",
            "word(Header)",
            "end_label",
            "url(https://a.com)",
            "line_break"
        ]
    );
}

#[test]
fn lex_image() {
    let mut lexer = Lexer::new(RecordingCollector::new());
    lexer.lex("![image](https://www.a.com)");
    let mock = lexer.into_collector();

    assert_eq!(
        strings(&mock.log),
        vec![
            "img",
            "begin_label",
            "word(image)",
            "end_label",
            "url(https://www.a.com)",
            "line_break"
        ]
    );
}

#[test]
fn lex_inline_code() {
    let mut lexer = Lexer::new(RecordingCollector::new());
    lexer.lex("regular `code` word");
    lexer.lex("a `code with spaces`.");
    let mock = lexer.into_collector();

    assert_eq!(
        strings(&mock.log),
        vec![
            "word(regular)",
            "begin_inline_code",
            "word(code)",
            "end_inline_code",
            "word(word)",
            "line_break",
            "word(a)",
            "begin_inline_code",
            "word(code)",
            "word(with)",
            "word(spaces.)",
            "end_inline_code",
            "line_break"
        ]
    );
}

#[test]
fn lex_inline_bold() {
    let mut lexer = Lexer::new(RecordingCollector::new());
    lexer.lex("an `inline **bold**`");
    let mock = lexer.into_collector();

    assert_eq!(
        strings(&mock.log).join(" "),
        vec![
            "word(an)",
            "begin_inline_code",
            "word(inline)",
            "word(**bold**)",
            "end_inline_code",
            "line_break"
        ]
        .join(" ")
    );
}

#[test]
fn bold_italic() {
    let mut lexer = Lexer::new(RecordingCollector::new());
    lexer.lex("***bold italic***");
    let mock = lexer.into_collector();

    assert_eq!(
        strings(&mock.log),
        vec![
            "begin_bold",
            "begin_italic",
            "word(bold)",
            "word(italic)",
            "end_italic",
            "end_bold",
            "line_break"
        ]
    );
}
