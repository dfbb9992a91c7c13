use haml::scanner::{tokenize, Token};
use haml::text::{clean_value, trim};

fn kinds(src: &str) -> Vec<String> {
    tokenize(src)
        .iter()
        .map(|t| match t {
            Token::Text(s) => format!("T({})", s),
            Token::Indentation(n) => format!("I({})", n),
            Token::Percent => "%".to_string(),
            Token::Period => ".".to_string(),
            Token::Hashtag => "#".to_string(),
            Token::Slash => "/".to_string(),
            Token::DocType => "!!!".to_string(),
            Token::OpenParen => "(".to_string(),
            Token::CloseParen => ")".to_string(),
            Token::OpenBrace => "{".to_string(),
            Token::CloseBrace => "}".to_string(),
            Token::OpenBracket => "[".to_string(),
            Token::CloseBracket => "]".to_string(),
            Token::Equal => "=".to_string(),
            Token::Arrow => "=>".to_string(),
            Token::Colon => ":".to_string(),
            Token::Comma => ",".to_string(),
            Token::Whitespace => "_".to_string(),
            Token::EndLine => "NL".to_string(),
        })
        .collect()
}

#[test]
fn scans_element_header() {
    assert_eq!(vec!["%", "T(span)", ".", "T(a)", "#", "T(b)"], kinds("%span.a#b"));
}

#[test]
fn scans_indentation_and_lines() {
    assert_eq!(vec!["T(a)", "NL", "I(2)", "T(b)"], kinds("a\n  b"));
}

#[test]
fn collapses_spaces_and_reads_arrow() {
    assert_eq!(
        vec!["{", ":", "T(id)", "_", "=>", "_", "T(x)", "}"],
        kinds("{:id   =>  \"x\"}")
    );
    assert_eq!(vec!["(", "T(a)", "=", "T(b c)", ")"], kinds("(a='b c')"));
}

#[test]
fn quotes_outside_brackets_are_text() {
    assert_eq!(vec!["T(\"hi\")"], kinds("\"hi\""));
}

#[test]
fn doctype_and_escape() {
    assert_eq!(vec!["!!!", "_", "T(5)"], kinds("!!! 5"));
    assert_eq!(vec!["T(%)", "T(x)"], kinds("\\%x"));
}

#[test]
fn text_helpers() {
    assert_eq!("a b", trim("  a b \n"));
    assert_eq!("it s", clean_value("'it's'"));
    assert_eq!("x", trim("\u{a0}\u{3000}x\u{c}"));
}
