use mustache::Reader;
use mustache::Token;

fn expect_sequence(input: &str, tokens: Vec<Token>) {
    let mut reader = Reader::new(input);
    let mut expected = tokens.into_iter();
    loop {
        let token = reader.pop_front();
        let want = expected.next();
        assert_eq!(token, want);
        if token.is_none() {
            break;
        }
    }
}

fn s(text: &str) -> String {
    text.to_string()
}

#[test]
fn text_only() {
    expect_sequence(" 123456 ", vec![Token::Text(s(" 123456 "), true)]);
}

#[test]
fn standalone_single_is_trimed() {
    expect_sequence(
        "x\n   {{/a}}  \ny",
        vec![
            Token::Text(s("x\n"), true),
            Token::EndSection(s("a"), s(""), 5),
            Token::Text(s("y"), true),
        ],
    )
}

#[test]
fn standalone_multi_is_trimed() {
    expect_sequence(
        "x\n   {{ # a }}{{^x}}{{/x}}{{ / a }}  \ny",
        vec![
            Token::Text(s("x\n"), true),
            Token::Section(s("a"), 14, false),
            Token::InvertedSection(s("x")),
            Token::EndSection(s("x"), s(""), 20),
            Token::EndSection(s("a"), s(""), 26),
            Token::Text(s("y"), true),
        ],
    )
}

#[test]
fn not_standalone_multi_is_not_trimed() {
    expect_sequence(
        "x\n   {{ #a }}{{^b }}{{{x}}}{{ /b}}{{/a}}  \ny",
        vec![
            Token::Text(s("x\n   "), true),
            Token::Section(s("a"), 13, false),
            Token::InvertedSection(s("b")),
            Token::Value(s("x"), false, false),
            Token::EndSection(s("b"), s(""), 27),
            Token::EndSection(s("a"), s(""), 34),
            Token::Text(s("  \ny"), false),
        ],
    )
}

#[test]
fn update_delimiters() {
    expect_sequence("{{=| |=}}", vec![Token::Delimiters(s("|"), s("|"))])
}

#[test]
fn delimiters_are_trimed() {
    expect_sequence("{{= +++   --- =}}", vec![Token::Delimiters(s("+++"), s("---"))])
}

#[test]
fn missing_delimiters_close() {
    expect_sequence("{{= +++   --- }}", vec![Token::Error(s("missing close delimiter"))])
}

#[test]
fn invalid_open_delimiter_value() {
    expect_sequence("{{= |=   | =}}", vec![Token::Error(s("invalid delimiters tag"))])
}

#[test]
fn invalid_close_delimiter_value() {
    expect_sequence("{{= |   =| =}}", vec![Token::Error(s("invalid delimiters tag"))])
}

#[test]
fn value_with_escape() {
    expect_sequence("{{ v }}", vec![Token::Value(s("v"), true, true)])
}

#[test]
fn value_without_escape() {
    expect_sequence("{{{ v }}}", vec![Token::Value(s("v"), false, true)])
}

#[test]
fn inner_section() {
    expect_sequence(
        "{{#a}}\n{{#b}}\n{{#c}}\n\n",
        vec![
            Token::Section(s("a"), 7, false),
            Token::Section(s("b"), 14, false),
            Token::Section(s("c"), 21, false),
            Token::Text(s("\n"), true),
        ],
    )
}

#[test]
fn repeated_newline() {
    expect_sequence(
        "{{#a}} \n \n {{#b}}",
        vec![
            Token::Section(s("a"), 8, false),
            Token::Text(s(" \n"), true),
            Token::Section(s("b"), 17, false),
        ],
    )
}

#[test]
fn seqcheck_section() {
    expect_sequence(
        "{{#?a}}{{/?a}}",
        vec![Token::Section(s("a"), 7, true), Token::EndSection(s("a"), s("?"), 7)],
    )
}
