use vstd::prelude::*;
use crate::ast::{all_linked, ancestor_at, attrs_add, cleaned, Arena, AttrEntry, ElementView, Html, HtmlElement, Node, NodeView};
use crate::scanner::{lexemes, Lexeme, Token};
use crate::text::{push_text, same_text, trim_seq};

verus! {

/// What went wrong in a template.
#[derive(PartialEq, Eq, Structural, Debug, Clone, Copy)]
pub enum ErrorKind {
    /// `%`, `.` or `#` not followed by a name.
    MissingText,
    /// `(` or `{` with no element on the line.
    StrayDelimiter,
    /// An attribute list that does not follow its grammar.
    MalformedAttribute,
    /// The line or the input ends inside an attribute list.
    UnexpectedEnd,
    /// A token that no rule of the line grammar takes where it stands
    /// (`=`, `=>`, `:`, `,`, `)`, `}`, `[` or `]` outside a run of text).
    UnexpectedToken,
}

/// A template error: its kind, the line (from 1) and the index of the token
/// where it was found.
#[derive(Debug)]
pub struct CompileError {
    pub kind: ErrorKind,
    pub line: usize,
    pub near_token: usize,
}

/// What one line yields: its node if any, its indentation, and whether the
/// line was blank.
pub struct Parsed(pub Option<Html>, pub usize, pub bool);

/// The text that a token stands for when it occurs inside a run of text.
pub open spec fn literal(l: Lexeme) -> Seq<char> {
    match l {
        Lexeme::Percent => seq!['%'],
        Lexeme::Period => seq!['.'],
        Lexeme::Hashtag => seq!['#'],
        Lexeme::Slash => seq!['/'],
        Lexeme::DocType => seq!['!', '!', '!'],
        Lexeme::OpenParen => seq!['('],
        Lexeme::CloseParen => seq![')'],
        Lexeme::OpenBrace => seq!['{'],
        Lexeme::CloseBrace => seq!['}'],
        Lexeme::OpenBracket => seq!['['],
        Lexeme::CloseBracket => seq![']'],
        Lexeme::Equal => seq!['='],
        Lexeme::Arrow => seq!['=', '>'],
        Lexeme::Colon => seq![':'],
        Lexeme::Comma => seq![','],
        Lexeme::Text(t) => t,
        Lexeme::Whitespace => seq![' '],
        Lexeme::Indentation(_) => seq![],
        Lexeme::EndLine => seq![],
    }
}

/// The position of the first end of line at or after `i`, or the end.
pub open spec fn line_end(t: Seq<Lexeme>, i: int) -> int
    decreases t.len() - i,
{
    if i < 0 || i >= t.len() || t[i] is EndLine {
        i
    } else {
        line_end(t, i + 1)
    }
}

/// The tokens from `i` up to `j`, written back as text.
pub open spec fn literal_run(t: Seq<Lexeme>, i: int, j: int) -> Seq<char>
    decreases j - i,
{
    if i >= j || i < 0 || j > t.len() {
        seq![]
    } else {
        literal_run(t, i, j - 1) + literal(t[j - 1])
    }
}

/// How many ends of line come before position `i`.
pub open spec fn endlines_before(t: Seq<Lexeme>, i: int) -> nat
    decreases i,
{
    if i <= 0 || i > t.len() {
        0
    } else {
        endlines_before(t, i - 1) + if t[i - 1] is EndLine {
            1nat
        } else {
            0nat
        }
    }
}

/// The line (from 1) of the token at position `i`, kept within `usize`.
pub open spec fn line_number(t: Seq<Lexeme>, i: int) -> usize {
    if 1 + endlines_before(t, i) < usize::MAX {
        (1 + endlines_before(t, i)) as usize
    } else {
        usize::MAX
    }
}

/// The text of an optional string.
pub open spec fn opt_view(o: Option<String>) -> Option<Seq<char>> {
    match o {
        Some(s) => Some(s@),
        None => None,
    }
}

/// What an attribute list yields: the attributes and the position after
/// its closing delimiter, or an error and where it was found.
pub type AttrsResult = Result<(Seq<AttrEntry>, int), (ErrorKind, int)>;

/// An outcome of an attribute reader agrees with what the grammar gives.
pub open spec fn attrs_outcome(
    r: Result<(), CompileError>,
    expected: AttrsResult,
    attrs: Seq<AttrEntry>,
    pos: int,
) -> bool {
    match expected {
        Ok((a, j)) => r is Ok && attrs == a && pos == j,
        Err((k, p)) => r matches Err(e) && e.kind == k && e.near_token == p,
    }
}

/// The value stored for `name = value` on an element with `tag`: `true`
/// under `checked` of an `input` becomes `checked`.
pub open spec fn paren_value(tag: Seq<char>, name: Seq<char>, value: Seq<char>) -> Seq<char> {
    if tag == "input"@ && name == "checked"@ && value == "true"@ {
        "checked"@
    } else {
        value
    }
}

/// The grammar of `(name = value ...)` from position `i` (after the `(`):
/// `name` is a name read and waiting for its value, `after_eq` says that
/// its `=` was read, `acc` holds the attributes so far. Whitespace is
/// skipped; the list ends at `)`.
pub open spec fn paren_attrs(
    t: Seq<Lexeme>,
    i: int,
    tag: Seq<char>,
    name: Option<Seq<char>>,
    after_eq: bool,
    acc: Seq<AttrEntry>,
) -> AttrsResult
    decreases t.len() - i,
{
    if i < 0 || i >= t.len() {
        Err((ErrorKind::UnexpectedEnd, i))
    } else {
        match t[i] {
            Lexeme::Whitespace => paren_attrs(t, i + 1, tag, name, after_eq, acc),
            Lexeme::CloseParen => if name is Some {
                Err((ErrorKind::MalformedAttribute, i))
            } else {
                Ok((acc, i + 1))
            },
            Lexeme::Equal => if name is None || after_eq {
                Err((ErrorKind::MalformedAttribute, i))
            } else {
                paren_attrs(t, i + 1, tag, name, true, acc)
            },
            Lexeme::Text(x) => if !after_eq {
                if name is Some {
                    Err((ErrorKind::MalformedAttribute, i))
                } else {
                    paren_attrs(t, i + 1, tag, Some(x), false, acc)
                }
            } else {
                let n = name->0;
                paren_attrs(t, i + 1, tag, None, false, attrs_add(acc, n, cleaned(paren_value(tag, n, x))))
            },
            Lexeme::EndLine => Err((ErrorKind::UnexpectedEnd, i)),
            _ => Err((ErrorKind::MalformedAttribute, i)),
        }
    }
}

/// The grammar of `{:name => value, ...}` from position `i` (after the
/// `{`), where a value is a text or `[text, ...]`. `state` is 0 before an
/// entry, 1 after its name, 2 after `=>`, 3 after its value, 4 inside a
/// bracketed list; `key` is the name of the current entry.
pub open spec fn hash_attrs(t: Seq<Lexeme>, i: int, state: int, key: Seq<char>, acc: Seq<AttrEntry>) -> AttrsResult
    decreases t.len() - i,
{
    if i < 0 || i >= t.len() {
        Err((ErrorKind::UnexpectedEnd, i))
    } else {
        match t[i] {
            Lexeme::Whitespace => hash_attrs(t, i + 1, state, key, acc),
            Lexeme::EndLine => Err((ErrorKind::UnexpectedEnd, i)),
            Lexeme::Colon => if state != 0 {
                Err((ErrorKind::MalformedAttribute, i))
            } else if i + 1 >= t.len() {
                Err((ErrorKind::UnexpectedEnd, i + 1))
            } else {
                match t[i + 1] {
                    Lexeme::Text(k) => hash_attrs(t, i + 2, 1, k, acc),
                    _ => Err((ErrorKind::MalformedAttribute, i + 1)),
                }
            },
            Lexeme::Arrow => if state != 1 {
                Err((ErrorKind::MalformedAttribute, i))
            } else {
                hash_attrs(t, i + 1, 2, key, acc)
            },
            Lexeme::Text(x) => if state == 2 {
                hash_attrs(t, i + 1, 3, key, attrs_add(acc, key, cleaned(x)))
            } else if state == 4 {
                hash_attrs(t, i + 1, 4, key, attrs_add(acc, key, cleaned(x)))
            } else {
                Err((ErrorKind::MalformedAttribute, i))
            },
            Lexeme::OpenBracket => if state != 2 {
                Err((ErrorKind::MalformedAttribute, i))
            } else {
                hash_attrs(t, i + 1, 4, key, acc)
            },
            Lexeme::CloseBracket => if state != 4 {
                Err((ErrorKind::MalformedAttribute, i))
            } else {
                hash_attrs(t, i + 1, 3, key, acc)
            },
            Lexeme::Comma => if state == 3 {
                hash_attrs(t, i + 1, 0, key, acc)
            } else if state == 4 {
                hash_attrs(t, i + 1, 4, key, acc)
            } else {
                Err((ErrorKind::MalformedAttribute, i))
            },
            Lexeme::CloseBrace => if state != 0 && state != 3 {
                Err((ErrorKind::MalformedAttribute, i))
            } else {
                Ok((acc, i + 1))
            },
            _ => Err((ErrorKind::MalformedAttribute, i)),
        }
    }
}

/// The first position at or after `i` that does not hold whitespace.
pub open spec fn skip_ws(t: Seq<Lexeme>, i: int) -> int
    decreases t.len() - i,
{
    if i < 0 || i >= t.len() || !(t[i] is Whitespace) {
        i
    } else {
        skip_ws(t, i + 1)
    }
}

/// A new element with `tag` and nothing else.
pub open spec fn new_element(tag: Seq<char>) -> ElementView {
    ElementView { tag, attributes: seq![], inline_text: seq![], self_close: false }
}

/// The line's element with an attribute value added (cleaned), or a new
/// `div` with it where the line has no element yet.
pub open spec fn with_attr(el: Option<NodeView>, key: Seq<char>, value: Seq<char>) -> NodeView {
    let e = match el {
        Some(NodeView::Element(e)) => e,
        _ => new_element("div"@),
    };
    NodeView::Element(ElementView { attributes: attrs_add(e.attributes, key, cleaned(value)), ..e })
}

/// A run of text on a line: the inline text of the line's element, or a
/// text node where the line has no element.
pub open spec fn with_text(el: Option<NodeView>, run: Seq<char>) -> NodeView {
    match el {
        Some(NodeView::Element(e)) => NodeView::Element(ElementView { inline_text: run, ..e }),
        _ => NodeView::Text(run),
    }
}

/// The node of a line so far, as plain values.
pub open spec fn opt_node(o: Option<Html>) -> Option<NodeView> {
    match o {
        Some(h) => Some(h@),
        None => None,
    }
}

/// What one line yields: its node if any, its indentation and the position
/// after it, or an error and where it was found.
pub type LineResult = Result<(Option<NodeView>, nat, int), (ErrorKind, int)>;

/// The grammar of one line from position `i`, with `el` the node built so
/// far and `indent` the indentation read. `%tag` starts an element; `.name`
/// and `#name` add a class or an id (to a new `div` where there is no
/// element); `(...)` and `{...}` add attributes to the element; `/` makes
/// the rest of the line a comment; `!!!` makes a doctype with the text that
/// follows, if any; a text starts a run of text that takes the rest of the
/// line, sigils and punctuation included; any other token is an error.
pub open spec fn line_from(t: Seq<Lexeme>, i: int, el: Option<NodeView>, indent: nat) -> LineResult
    decreases t.len() - i,
{
    if i < 0 || i >= t.len() {
        Ok((el, indent, i))
    } else {
        match t[i] {
            Lexeme::Indentation(n) => line_from(t, i + 1, el, n),
            Lexeme::Whitespace => line_from(t, i + 1, el, indent),
            Lexeme::EndLine => Ok((el, indent, i + 1)),
            Lexeme::Percent => if i + 1 < t.len() && t[i + 1] is Text {
                line_from(t, i + 2, Some(NodeView::Element(new_element(t[i + 1]->Text_0))), indent)
            } else {
                Err((ErrorKind::MissingText, i + 1))
            },
            Lexeme::Period => if i + 1 < t.len() && t[i + 1] is Text {
                line_from(t, i + 2, Some(with_attr(el, "class"@, t[i + 1]->Text_0)), indent)
            } else {
                Err((ErrorKind::MissingText, i + 1))
            },
            Lexeme::Hashtag => if i + 1 < t.len() && t[i + 1] is Text {
                line_from(t, i + 2, Some(with_attr(el, "id"@, t[i + 1]->Text_0)), indent)
            } else {
                Err((ErrorKind::MissingText, i + 1))
            },
            Lexeme::OpenParen => match el {
                Some(NodeView::Element(e)) => match paren_attrs(t, i + 1, e.tag, None, false, e.attributes) {
                    Ok((a, j)) => if i < j <= t.len() {
                        line_from(t, j, Some(NodeView::Element(ElementView { attributes: a, ..e })), indent)
                    } else {
                        Err((ErrorKind::MalformedAttribute, i))
                    },
                    Err(x) => Err(x),
                },
                _ => Err((ErrorKind::StrayDelimiter, i)),
            },
            Lexeme::OpenBrace => match el {
                Some(NodeView::Element(e)) => match hash_attrs(t, i + 1, 0, seq![], e.attributes) {
                    Ok((a, j)) => if i < j <= t.len() {
                        line_from(t, j, Some(NodeView::Element(ElementView { attributes: a, ..e })), indent)
                    } else {
                        Err((ErrorKind::MalformedAttribute, i))
                    },
                    Err(x) => Err(x),
                },
                _ => Err((ErrorKind::StrayDelimiter, i)),
            },
            Lexeme::Slash => {
                let j = line_end(t, i + 1);
                if i < j <= t.len() {
                    line_from(t, j, Some(NodeView::Comment(trim_seq(literal_run(t, i + 1, j)))), indent)
                } else {
                    Ok((el, indent, i))
                }
            },
            Lexeme::DocType => {
                let j = skip_ws(t, i + 1);
                if j <= i || j > t.len() {
                    Ok((el, indent, i))
                } else if j < t.len() && t[j] is Text {
                    line_from(t, j + 1, Some(NodeView::Doctype(t[j]->Text_0)), indent)
                } else {
                    line_from(t, j, Some(NodeView::Doctype(seq![])), indent)
                }
            },
            Lexeme::Text(x) => {
                let j = line_end(t, i + 1);
                if i < j <= t.len() {
                    line_from(t, j, Some(with_text(el, x + literal_run(t, i + 1, j))), indent)
                } else {
                    Ok((el, indent, i))
                }
            },
            _ => Err((ErrorKind::UnexpectedToken, i)),
        }
    }
}

/// A template parser: it reads tokens and builds the tree.
pub struct Parser {
    tokens: Vec<Token>,
    pos: usize,
    line: usize,
}

fn literal_of(t: &Token) -> (r: String)
    ensures
        r@ == literal(t@),
{
    let r = match t {
        Token::Percent => String::from_str("%"),
        Token::Period => String::from_str("."),
        Token::Hashtag => String::from_str("#"),
        Token::Slash => String::from_str("/"),
        Token::DocType => String::from_str("!!!"),
        Token::OpenParen => String::from_str("("),
        Token::CloseParen => String::from_str(")"),
        Token::OpenBrace => String::from_str("{"),
        Token::CloseBrace => String::from_str("}"),
        Token::OpenBracket => String::from_str("["),
        Token::CloseBracket => String::from_str("]"),
        Token::Equal => String::from_str("="),
        Token::Arrow => String::from_str("=>"),
        Token::Colon => String::from_str(":"),
        Token::Comma => String::from_str(","),
        Token::Text(s) => s.clone(),
        Token::Whitespace => String::from_str(" "),
        Token::Indentation(_) => String::new(),
        Token::EndLine => String::new(),
    };
    proof {
        reveal_strlit("%");
        reveal_strlit(".");
        reveal_strlit("#");
        reveal_strlit("/");
        reveal_strlit("!!!");
        reveal_strlit("(");
        reveal_strlit(")");
        reveal_strlit("{");
        reveal_strlit("}");
        reveal_strlit("[");
        reveal_strlit("]");
        reveal_strlit("=");
        reveal_strlit("=>");
        reveal_strlit(":");
        reveal_strlit(",");
        reveal_strlit(" ");
        assert(literal(t@) =~= r@);
    }
    r
}

impl Parser {
    pub closed spec fn tokens_view(&self) -> Seq<Lexeme> {
        lexemes(self.tokens@)
    }

    pub closed spec fn position(&self) -> int {
        self.pos as int
    }

    pub closed spec fn inv(&self) -> bool {
        &&& self.pos <= self.tokens@.len()
        &&& self.line == line_number(self.tokens_view(), self.pos as int)
    }

    pub fn new(tokens: Vec<Token>) -> (r: Parser)
        ensures
            r.inv(),
            r.tokens_view() == lexemes(tokens@),
            r.position() == 0,
    {
        Parser { tokens, pos: 0, line: 1 }
    }

    fn error(&self, kind: ErrorKind) -> (e: CompileError)
        requires
            self.inv(),
        ensures
            e.kind == kind,
            e.near_token == self.pos,
            e.line == line_number(self.tokens_view(), self.pos as int),
    {
        CompileError { kind, line: self.line, near_token: self.pos }
    }

    /// Reads the rest of the line as text, every token written back as the
    /// characters it stands for.
    fn text_run(&mut self, first: String) -> (r: String)
        requires
            old(self).inv(),
        ensures
            final(self).inv(),
            final(self).tokens@ == old(self).tokens@,
            final(self).position() == line_end(old(self).tokens_view(), old(self).position()),
            final(self).position() >= old(self).position(),
            r@ == first@ + literal_run(old(self).tokens_view(), old(self).position(), final(self).position()),
    {
        let ghost t = self.tokens_view();
        let ghost p0 = self.pos as int;
        let mut out = first;
        while self.pos < self.tokens.len() && !matches!(self.tokens[self.pos], Token::EndLine)
            invariant
                self.inv(),
                self.tokens_view() == t,
                self.tokens@ == old(self).tokens@,
                p0 <= self.pos,
                p0 == old(self).position(),
                line_end(t, p0) == line_end(t, self.pos as int),
                out@ == first@ + literal_run(t, p0, self.pos as int),
            decreases self.tokens@.len() - self.pos,
        {
            let piece = literal_of(&self.tokens[self.pos]);
            push_text(&mut out, piece.as_str());
            proof {
                assert(t[self.pos as int] == self.tokens@[self.pos as int]@);
                assert(literal_run(t, p0, self.pos + 1) == literal_run(t, p0, self.pos as int) + literal(
                    t[self.pos as int],
                ));
            }
            self.pos = self.pos + 1;
        }
        proof {
            assert(self.tokens_view().len() == self.tokens@.len());
            if self.pos < self.tokens@.len() {
                assert(t[self.pos as int] == self.tokens@[self.pos as int]@);
            }
        }
        out
    }

    /// Reads the name that must follow `%`, `.` or `#`.
    fn expect_text(&mut self) -> (r: Result<String, CompileError>)
        requires
            old(self).inv(),
        ensures
            final(self).inv(),
            final(self).tokens@ == old(self).tokens@,
            final(self).position() >= old(self).position(),
            ({
                let t = old(self).tokens_view();
                let i = old(self).position();
                if i < t.len() && t[i] is Text {
                    r matches Ok(name) && name@ == t[i]->Text_0 && final(self).position() == i + 1
                } else {
                    r matches Err(e) && e.kind == ErrorKind::MissingText && e.near_token == i && e.line
                        == line_number(t, i)
                }
            }),
    {
        proof {
            if self.pos < self.tokens@.len() {
                assert(self.tokens_view()[self.pos as int] == self.tokens@[self.pos as int]@);
            }
        }
        if self.pos < self.tokens.len() {
            if let Token::Text(t) = &self.tokens[self.pos] {
                let name = t.clone();
                self.pos = self.pos + 1;
                return Ok(name);
            }
        }
        Err(self.error(ErrorKind::MissingText))
    }

    fn skip_whitespace(&mut self)
        requires
            old(self).inv(),
        ensures
            final(self).inv(),
            final(self).tokens@ == old(self).tokens@,
            final(self).position() >= old(self).position(),
            final(self).position() == skip_ws(old(self).tokens_view(), old(self).position()),
    {
        let ghost t = self.tokens_view();
        while self.pos < self.tokens.len() && matches!(self.tokens[self.pos], Token::Whitespace)
            invariant
                self.inv(),
                self.tokens@ == old(self).tokens@,
                t == self.tokens_view(),
                self.pos >= old(self).position(),
                skip_ws(t, self.pos as int) == skip_ws(t, old(self).position()),
            decreases self.tokens@.len() - self.pos,
        {
            assert(t[self.pos as int] == self.tokens@[self.pos as int]@);
            self.pos = self.pos + 1;
        }
        proof {
            if self.pos < self.tokens@.len() {
                assert(t[self.pos as int] == self.tokens@[self.pos as int]@);
            }
        }
    }

    /// Reads `name = value` pairs up to `)`, as `paren_attrs` describes.
    fn parse_attributes(&mut self, element: &mut HtmlElement) -> (r: Result<(), CompileError>)
        requires
            old(self).inv(),
            old(element).wf(),
        ensures
            final(self).inv(),
            final(element).wf(),
            final(self).tokens@ == old(self).tokens@,
            final(self).position() >= old(self).position(),
            final(element).tag == old(element).tag,
            final(element).inline_text == old(element).inline_text,
            final(element).self_close == old(element).self_close,
            r matches Err(e) ==> e.line == line_number(old(self).tokens_view(), e.near_token as int),
            attrs_outcome(
                r,
                paren_attrs(
                    old(self).tokens_view(),
                    old(self).position(),
                    old(element).tag@,
                    None,
                    false,
                    old(element).attributes@,
                ),
                final(element).attributes@,
                final(self).position(),
            ),
    {
        let ghost t = self.tokens_view();
        let ghost goal = paren_attrs(t, self.pos as int, element.tag@, None, false, element.attributes@);
        let mut name: Option<String> = None;
        let mut after_equal = false;
        loop
            invariant
                self.inv(),
                element.wf(),
                self.tokens@ == old(self).tokens@,
                t == self.tokens_view(),
                self.pos >= old(self).position(),
                element.tag == old(element).tag,
                element.inline_text == old(element).inline_text,
                element.self_close == old(element).self_close,
                after_equal ==> name is Some,
                goal == paren_attrs(old(self).tokens_view(), old(self).position(), old(element).tag@, None, false, old(element).attributes@),
                goal == paren_attrs(t, self.pos as int, element.tag@, opt_view(name), after_equal, element.attributes@),
            decreases self.tokens@.len() - self.pos,
        {
            if self.pos >= self.tokens.len() {
                return Err(self.error(ErrorKind::UnexpectedEnd));
            }
            let idx = self.pos;
            assert(t[idx as int] == self.tokens@[idx as int]@);
            match &self.tokens[idx] {
                Token::Whitespace => {},
                Token::CloseParen => {
                    if name.is_some() {
                        return Err(self.error(ErrorKind::MalformedAttribute));
                    }
                    self.pos = self.pos + 1;
                    return Ok(());
                },
                Token::Equal => {
                    if name.is_none() || after_equal {
                        return Err(self.error(ErrorKind::MalformedAttribute));
                    }
                    after_equal = true;
                },
                Token::Text(text) => {
                    if !after_equal {
                        if name.is_some() {
                            return Err(self.error(ErrorKind::MalformedAttribute));
                        }
                        name = Some(text.clone());
                    } else {
                        let key = name.unwrap();
                        let value = if same_text(element.tag.as_str(), "input") && same_text(key.as_str(), "checked")
                            && same_text(text.as_str(), "true") {
                            String::from_str("checked")
                        } else {
                            text.clone()
                        };
                        element.add_attribute(key, value);
                        name = None;
                        after_equal = false;
                    }
                },
                Token::EndLine => {
                    return Err(self.error(ErrorKind::UnexpectedEnd));
                },
                _ => {
                    return Err(self.error(ErrorKind::MalformedAttribute));
                },
            }
            self.pos = self.pos + 1;
        }
    }

    /// Reads `:name => value` entries up to `}`, as `hash_attrs` describes.
    fn parse_ruby_attributes(&mut self, element: &mut HtmlElement) -> (r: Result<(), CompileError>)
        requires
            old(self).inv(),
            old(element).wf(),
        ensures
            final(self).inv(),
            final(element).wf(),
            final(self).tokens@ == old(self).tokens@,
            final(self).position() >= old(self).position(),
            final(element).tag == old(element).tag,
            final(element).inline_text == old(element).inline_text,
            final(element).self_close == old(element).self_close,
            r matches Err(e) ==> e.line == line_number(old(self).tokens_view(), e.near_token as int),
            attrs_outcome(
                r,
                hash_attrs(old(self).tokens_view(), old(self).position(), 0, seq![], old(element).attributes@),
                final(element).attributes@,
                final(self).position(),
            ),
    {
        let ghost t = self.tokens_view();
        let ghost goal = hash_attrs(t, self.pos as int, 0, seq![], element.attributes@);
        let mut state: u8 = 0;
        let mut key = String::new();
        assert(key@ == Seq::<char>::empty());
        loop
            invariant
                self.inv(),
                element.wf(),
                self.tokens@ == old(self).tokens@,
                t == self.tokens_view(),
                self.pos >= old(self).position(),
                element.tag == old(element).tag,
                element.inline_text == old(element).inline_text,
                element.self_close == old(element).self_close,
                goal == hash_attrs(old(self).tokens_view(), old(self).position(), 0, seq![], old(element).attributes@),
                goal == hash_attrs(t, self.pos as int, state as int, key@, element.attributes@),
            decreases self.tokens@.len() - self.pos,
        {
            if self.pos >= self.tokens.len() {
                return Err(self.error(ErrorKind::UnexpectedEnd));
            }
            let idx = self.pos;
            assert(t[idx as int] == self.tokens@[idx as int]@);
            match &self.tokens[idx] {
                Token::Whitespace => {},
                Token::EndLine => {
                    return Err(self.error(ErrorKind::UnexpectedEnd));
                },
                Token::Colon => {
                    if state != 0 {
                        return Err(self.error(ErrorKind::MalformedAttribute));
                    }
                    self.pos = self.pos + 1;
                    if self.pos >= self.tokens.len() {
                        return Err(self.error(ErrorKind::UnexpectedEnd));
                    }
                    assert(t[self.pos as int] == self.tokens@[self.pos as int]@);
                    if let Token::Text(text) = &self.tokens[self.pos] {
                        key = text.clone();
                        state = 1;
                        assert(endlines_before(t, self.pos + 1) == endlines_before(t, self.pos as int));
                    } else {
                        return Err(self.error(ErrorKind::MalformedAttribute));
                    }
                },
                Token::Arrow => {
                    if state != 1 {
                        return Err(self.error(ErrorKind::MalformedAttribute));
                    }
                    state = 2;
                },
                Token::Text(text) => {
                    if state == 2 {
                        element.add_attribute(key.clone(), text.clone());
                        state = 3;
                    } else if state == 4 {
                        element.add_attribute(key.clone(), text.clone());
                    } else {
                        return Err(self.error(ErrorKind::MalformedAttribute));
                    }
                },
                Token::OpenBracket => {
                    if state != 2 {
                        return Err(self.error(ErrorKind::MalformedAttribute));
                    }
                    state = 4;
                },
                Token::CloseBracket => {
                    if state != 4 {
                        return Err(self.error(ErrorKind::MalformedAttribute));
                    }
                    state = 3;
                },
                Token::Comma => {
                    if state == 3 {
                        state = 0;
                    } else if state != 4 {
                        return Err(self.error(ErrorKind::MalformedAttribute));
                    }
                },
                Token::CloseBrace => {
                    if state != 0 && state != 3 {
                        return Err(self.error(ErrorKind::MalformedAttribute));
                    }
                    self.pos = self.pos + 1;
                    return Ok(());
                },
                _ => {
                    return Err(self.error(ErrorKind::MalformedAttribute));
                },
            }
            self.pos = self.pos + 1;
        }
    }

    /// Builds the tree of the whole template. Each line's node goes under
    /// the nearest node, going up from the previous line's node (itself
    /// included), that is indented less than the line; the root takes what
    /// no such node takes.
    pub fn parse(&mut self) -> (r: Result<Arena, CompileError>)
        requires
            old(self).inv(),
            old(self).tokens_view().len() < usize::MAX,
        ensures
            r matches Ok(a) ==> {
                &&& a.wf()
                &&& all_linked(a@)
                &&& threaded(a@)
            },
            match parse_lines(old(self).tokens_view(), old(self).position()) {
                Ok(lines) => r matches Ok(a) && arena_lines(a@) == lines,
                Err((k, q)) => r matches Err(e) && e.kind == k && e.near_token == q && e.line == line_number(
                    old(self).tokens_view(),
                    q,
                ),
            },
    {
        let ghost t = self.tokens_view();
        let ghost goal = parse_lines(t, self.pos as int);
        proof {
            assert(t.len() == self.tokens@.len());
        }
        let mut arena = Arena::new();
        assert(arena_lines(arena@) =~= seq![]);
        let mut current: usize = 0;
        while self.pos < self.tokens.len()
            invariant
                self.inv(),
                self.tokens@ == old(self).tokens@,
                t == self.tokens_view(),
                self.tokens@.len() < usize::MAX,
                arena.wf(),
                all_linked(arena@),
                threaded(arena@),
                current + 1 == arena@.len(),
                arena@.len() <= self.pos + 1,
                goal == parse_lines(old(self).tokens_view(), old(self).position()),
                match parse_lines(t, self.pos as int) {
                    Ok(rest) => goal == Ok::<_, (ErrorKind, int)>(arena_lines(arena@) + rest),
                    Err(e) => goal == Err::<Seq<(NodeView, nat)>, _>(e),
                },
            decreases self.tokens@.len() - self.pos,
        {
            let ghost i = self.pos as int;
            let Parsed(node, indent, _blank) = self.do_parse()?;
            let ghost j = self.pos as int;
            let ghost before = arena@;
            if let Some(html) = node {
                let parent = arena.ancestor_at_indent(current, indent);
                let ghost hv = html@;
                current = arena.insert(html, indent, parent);
                proof {
                    lemma_insert_keeps_threaded(before, arena@, indent as int);
                    lemma_lines_step(t, i, j, before, arena@, hv, indent as nat, goal);
                }
            } else {
                proof {
                    lemma_lines_blank(t, i, j, arena@, goal);
                }
            }
        }
        proof {
            assert(parse_lines(t, self.pos as int) == Ok::<_, (ErrorKind, int)>(Seq::<(NodeView, nat)>::empty()));
            assert(arena_lines(arena@) + Seq::<(NodeView, nat)>::empty() =~= arena_lines(arena@));
        }
        Ok(arena)
    }

    /// Reads one line and builds its node, as `line_from` describes.
    fn do_parse(&mut self) -> (r: Result<Parsed, CompileError>)
        requires
            old(self).inv(),
        ensures
            final(self).inv(),
            final(self).tokens@ == old(self).tokens@,
            final(self).position() >= old(self).position(),
            r matches Ok(p) ==> (p.0 matches Some(h) ==> h.wf()),
            r matches Ok(p) ==> (p.2 <==> p.0 is None),
            r is Ok && old(self).pos < old(self).tokens@.len() ==> final(self).pos > old(self).pos,
            match line_from(old(self).tokens_view(), old(self).position(), None, 0) {
                Ok((node, indent, j)) => r matches Ok(p) && opt_node(p.0) == node && p.1 == indent
                    && final(self).position() == j,
                Err((k, q)) => r matches Err(e) && e.kind == k && e.near_token == q && e.line == line_number(
                    old(self).tokens_view(),
                    q,
                ),
            },
    {
        let ghost t = self.tokens_view();
        let mut element: Option<Html> = None;
        let mut indent: usize = 0;
        let start = self.pos;
        let ghost goal = line_from(t, start as int, None, 0);
        while self.pos < self.tokens.len()
            invariant_except_break
                goal == line_from(t, self.pos as int, opt_node(element), indent as nat),
            invariant
                self.inv(),
                self.tokens@ == old(self).tokens@,
                t == self.tokens_view(),
                self.pos >= start,
                start == old(self).position(),
                goal == line_from(old(self).tokens_view(), old(self).position(), None, 0),
                element matches Some(h) ==> h.wf(),
            ensures
                self.inv(),
                self.tokens@ == old(self).tokens@,
                self.pos >= start,
                start < self.tokens@.len() ==> self.pos > start,
                goal == Ok::<_, (ErrorKind, int)>((opt_node(element), indent as nat, self.pos as int)),
                element matches Some(h) ==> h.wf(),
            decreases self.tokens@.len() - self.pos,
        {
            let idx = self.pos;
            assert(t[idx as int] == self.tokens@[idx as int]@);
            self.pos = self.pos + 1;
            match &self.tokens[idx] {
                Token::Indentation(n) => {
                    indent = *n;
                },
                Token::Whitespace => {},
                Token::EndLine => {
                    if self.line < usize::MAX {
                        self.line = self.line + 1;
                    }
                    break ;
                },
                Token::Percent => {
                    let tag = self.expect_text()?;
                    element = Some(Html::Element(HtmlElement::new(tag)));
                    assert(opt_node(element) =~= Some(NodeView::Element(new_element(t[idx + 1]->Text_0))));
                },
                Token::Period => {
                    let name = self.expect_text()?;
                    let key = String::from_str("class");
                    proof {
                        reveal_strlit("class");
                    }
                    element = Some(with_attribute(element, key, name));
                },
                Token::Hashtag => {
                    let name = self.expect_text()?;
                    let key = String::from_str("id");
                    proof {
                        reveal_strlit("id");
                    }
                    element = Some(with_attribute(element, key, name));
                },
                Token::OpenParen => {
                    if let Some(Html::Element(mut el)) = element {
                        self.parse_attributes(&mut el)?;
                        element = Some(Html::Element(el));
                    } else {
                        self.pos = idx;
                        return Err(self.error(ErrorKind::StrayDelimiter));
                    }
                },
                Token::OpenBrace => {
                    if let Some(Html::Element(mut el)) = element {
                        self.parse_ruby_attributes(&mut el)?;
                        element = Some(Html::Element(el));
                    } else {
                        self.pos = idx;
                        return Err(self.error(ErrorKind::StrayDelimiter));
                    }
                },
                Token::Slash => {
                    let body = self.text_run(String::new());
                    element = Some(Html::Comment(crate::text::trim(body.as_str())));
                    assert(body@ =~= literal_run(t, idx + 1, self.pos as int));
                },
                Token::DocType => {
                    self.skip_whitespace();
                    let mut spec = String::new();
                    if self.pos < self.tokens.len() {
                        assert(t[self.pos as int] == self.tokens@[self.pos as int]@);
                        if let Token::Text(text) = &self.tokens[self.pos] {
                            spec = text.clone();
                            self.pos = self.pos + 1;
                        }
                    }
                    element = Some(Html::Doctype(spec));
                    assert(opt_node(element) =~= Some(NodeView::Doctype(spec@)));
                },
                Token::Text(first) => {
                    let run = self.text_run(first.clone());
                    element = Some(attach_text(element, run));
                },
                _ => {
                    self.pos = idx;
                    return Err(self.error(ErrorKind::UnexpectedToken));
                },
            }
        }
        let blank = element.is_none();
        Ok(Parsed(element, indent, blank))
    }
}

/// The nodes of the non-blank lines from position `i` on, each with its
/// indentation, or the first error.
pub open spec fn parse_lines(t: Seq<Lexeme>, i: int) -> Result<Seq<(NodeView, nat)>, (ErrorKind, int)>
    decreases t.len() - i,
{
    if i < 0 || i >= t.len() {
        Ok(seq![])
    } else {
        match line_from(t, i, None, 0) {
            Err(e) => Err(e),
            Ok((node, ind, j)) => if j <= i || j > t.len() {
                Ok(seq![])
            } else {
                match parse_lines(t, j) {
                    Err(e) => Err(e),
                    Ok(rest) => Ok(
                        match node {
                            Some(n) => seq![(n, ind)] + rest,
                            None => rest,
                        },
                    ),
                }
            },
        }
    }
}

proof fn lemma_insert_keeps_threaded(before: Seq<Node>, s: Seq<Node>, indent: int)
    requires
        threaded(before),
        before.len() >= 1,
        s.len() == before.len() + 1,
        forall|k: int| 0 <= k < before.len() ==> (#[trigger] s[k]).parent == before[k].parent && s[k].indentation
            == before[k].indentation,
        s[before.len() as int].indentation == indent,
        s[before.len() as int].parent == ancestor_at(before, before.len() - 1, indent),
    ensures
        threaded(s),
{
    lemma_ancestor_stable(before, s, before.len() - 1, indent);
    assert forall|k: int| 1 <= k < s.len() implies (#[trigger] s[k]).parent == ancestor_at(
        s,
        k - 1,
        s[k].indentation as int,
    ) by {
        if k < before.len() {
            lemma_ancestor_stable(before, s, k - 1, s[k].indentation as int);
        }
    }
}

proof fn lemma_lines_step(
    t: Seq<Lexeme>,
    i: int,
    j: int,
    before: Seq<Node>,
    s: Seq<Node>,
    hv: NodeView,
    ind: nat,
    goal: Result<Seq<(NodeView, nat)>, (ErrorKind, int)>,
)
    requires
        0 <= i < j <= t.len(),
        line_from(t, i, None, 0) == Ok::<_, (ErrorKind, int)>((Some(hv), ind, j)),
        before.len() >= 1,
        s.len() == before.len() + 1,
        forall|k: int| 0 <= k < before.len() ==> (#[trigger] s[k]).data == before[k].data && s[k].indentation
            == before[k].indentation,
        s[before.len() as int].data@ == hv,
        s[before.len() as int].indentation == ind,
        match parse_lines(t, i) {
            Ok(rest) => goal == Ok::<_, (ErrorKind, int)>(arena_lines(before) + rest),
            Err(e) => goal == Err::<Seq<(NodeView, nat)>, _>(e),
        },
    ensures
        match parse_lines(t, j) {
            Ok(rest) => goal == Ok::<_, (ErrorKind, int)>(arena_lines(s) + rest),
            Err(e) => goal == Err::<Seq<(NodeView, nat)>, _>(e),
        },
{
    assert(arena_lines(s) =~= arena_lines(before).push((hv, ind)));
    match parse_lines(t, j) {
        Ok(rest) => {
            assert(arena_lines(s) + rest =~= arena_lines(before) + (seq![(hv, ind)] + rest));
        },
        Err(e) => {},
    }
}

proof fn lemma_lines_blank(
    t: Seq<Lexeme>,
    i: int,
    j: int,
    s: Seq<Node>,
    goal: Result<Seq<(NodeView, nat)>, (ErrorKind, int)>,
)
    requires
        0 <= i < j <= t.len(),
        line_from(t, i, None, 0) matches Ok((None, _, jj)) && jj == j,
        match parse_lines(t, i) {
            Ok(rest) => goal == Ok::<_, (ErrorKind, int)>(arena_lines(s) + rest),
            Err(e) => goal == Err::<Seq<(NodeView, nat)>, _>(e),
        },
    ensures
        match parse_lines(t, j) {
            Ok(rest) => goal == Ok::<_, (ErrorKind, int)>(arena_lines(s) + rest),
            Err(e) => goal == Err::<Seq<(NodeView, nat)>, _>(e),
        },
{
}

/// The nodes of a tree after the root, in order, each with its indentation.
pub open spec fn arena_lines(s: Seq<Node>) -> Seq<(NodeView, nat)> {
    Seq::new((s.len() - 1) as nat, |k: int| (s[k + 1].data@, s[k + 1].indentation as nat))
}

/// Every node after the root hangs under the nearest node, going up from
/// the node before it (itself included), that is indented less than it, or
/// under the root if there is none.
pub open spec fn threaded(s: Seq<Node>) -> bool {
    forall|i: int| 1 <= i < s.len() ==> (#[trigger] s[i]).parent == ancestor_at(s, i - 1, s[i].indentation as int)
}

proof fn lemma_ancestor_stable(s: Seq<Node>, t: Seq<Node>, id: int, indent: int)
    requires
        0 <= id < s.len() <= t.len(),
        forall|i: int| 0 <= i < s.len() ==> (#[trigger] t[i]).parent == s[i].parent && t[i].indentation == s[i].indentation,
    ensures
        ancestor_at(t, id, indent) == ancestor_at(s, id, indent),
    decreases id,
{
    assert(t[id].parent == s[id].parent);
    if id > 0 && s[id].indentation >= indent && s[id].parent < id {
        lemma_ancestor_stable(s, t, s[id].parent as int, indent);
    }
}

/// Adds an attribute to the line's element, or to a new `div` where the line
/// has none yet.
fn with_attribute(element: Option<Html>, key: String, value: String) -> (r: Html)
    requires
        element matches Some(h) ==> h.wf(),
    ensures
        r.wf(),
        r@ == with_attr(opt_node(element), key@, value@),
{
    proof {
        reveal_strlit("div");
    }
    match element {
        Some(Html::Element(mut el)) => {
            el.add_attribute(key, value);
            Html::Element(el)
        },
        _ => {
            let mut el = HtmlElement::new(String::from_str("div"));
            el.add_attribute(key, value);
            Html::Element(el)
        },
    }
}

/// Sets a run of text as the inline text of the line's element, or makes
/// it a text node where the line has no element.
fn attach_text(element: Option<Html>, run: String) -> (r: Html)
    requires
        element matches Some(h) ==> h.wf(),
    ensures
        r.wf(),
        r@ == with_text(opt_node(element), run@),
{
    match element {
        Some(Html::Element(mut el)) => {
            el.inline_text = run;
            Html::Element(el)
        },
        _ => Html::Text(run),
    }
}

} // verus!
