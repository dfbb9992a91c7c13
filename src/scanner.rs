use vstd::prelude::*;
use crate::text::chars_of;

verus! {

/// One lexical unit of a template.
pub enum Token {
    Percent,
    Period,
    Hashtag,
    Slash,
    DocType,
    OpenParen,
    CloseParen,
    OpenBrace,
    CloseBrace,
    OpenBracket,
    CloseBracket,
    Equal,
    Arrow,
    Colon,
    Comma,
    Text(String),
    Whitespace,
    Indentation(usize),
    EndLine,
}

/// A token as plain values.
pub enum Lexeme {
    Percent,
    Period,
    Hashtag,
    Slash,
    DocType,
    OpenParen,
    CloseParen,
    OpenBrace,
    CloseBrace,
    OpenBracket,
    CloseBracket,
    Equal,
    Arrow,
    Colon,
    Comma,
    Text(Seq<char>),
    Whitespace,
    Indentation(nat),
    EndLine,
}

impl View for Token {
    type V = Lexeme;

    open spec fn view(&self) -> Lexeme {
        match self {
            Token::Percent => Lexeme::Percent,
            Token::Period => Lexeme::Period,
            Token::Hashtag => Lexeme::Hashtag,
            Token::Slash => Lexeme::Slash,
            Token::DocType => Lexeme::DocType,
            Token::OpenParen => Lexeme::OpenParen,
            Token::CloseParen => Lexeme::CloseParen,
            Token::OpenBrace => Lexeme::OpenBrace,
            Token::CloseBrace => Lexeme::CloseBrace,
            Token::OpenBracket => Lexeme::OpenBracket,
            Token::CloseBracket => Lexeme::CloseBracket,
            Token::Equal => Lexeme::Equal,
            Token::Arrow => Lexeme::Arrow,
            Token::Colon => Lexeme::Colon,
            Token::Comma => Lexeme::Comma,
            Token::Text(t) => Lexeme::Text(t@),
            Token::Whitespace => Lexeme::Whitespace,
            Token::Indentation(n) => Lexeme::Indentation(*n as nat),
            Token::EndLine => Lexeme::EndLine,
        }
    }
}

/// The tokens as plain values.
pub open spec fn lexemes(t: Seq<Token>) -> Seq<Lexeme> {
    t.map_values(|x: Token| x@)
}

/// Characters that end a run of text.
pub open spec fn is_special(c: char) -> bool {
    c == ' ' || c == '\n' || c == '\r' || c == '%' || c == '.' || c == '#' || c == '/' || c == '('
        || c == ')' || c == '{' || c == '}' || c == '[' || c == ']' || c == ',' || c == ':' || c == '='
        || c == '\\'
}

/// The end of the run of non-special characters that starts at `i`.
pub open spec fn run_end(s: Seq<char>, i: int) -> int
    decreases s.len() - i,
{
    if i < 0 || i >= s.len() || is_special(s[i]) {
        i
    } else {
        run_end(s, i + 1)
    }
}

/// The end of the run of spaces that starts at `i`.
pub open spec fn spaces_end(s: Seq<char>, i: int) -> int
    decreases s.len() - i,
{
    if i < 0 || i >= s.len() || s[i] != ' ' {
        i
    } else {
        spaces_end(s, i + 1)
    }
}

/// The position of the quote `q` that closes a quoted text whose contents
/// start at `i`, or of the end of the line or of the input if none does.
pub open spec fn quote_end(s: Seq<char>, i: int, q: char) -> int
    decreases s.len() - i,
{
    if i < 0 || i >= s.len() || s[i] == q || s[i] == '\n' {
        i
    } else {
        quote_end(s, i + 1, q)
    }
}

/// The single-character sigils and punctuation marks.
pub open spec fn punct(c: char) -> Option<Lexeme> {
    if c == '%' {
        Some(Lexeme::Percent)
    } else if c == '.' {
        Some(Lexeme::Period)
    } else if c == '#' {
        Some(Lexeme::Hashtag)
    } else if c == '/' {
        Some(Lexeme::Slash)
    } else if c == '(' {
        Some(Lexeme::OpenParen)
    } else if c == ')' {
        Some(Lexeme::CloseParen)
    } else if c == '{' {
        Some(Lexeme::OpenBrace)
    } else if c == '}' {
        Some(Lexeme::CloseBrace)
    } else if c == '[' {
        Some(Lexeme::OpenBracket)
    } else if c == ']' {
        Some(Lexeme::CloseBracket)
    } else if c == ',' {
        Some(Lexeme::Comma)
    } else if c == ':' {
        Some(Lexeme::Colon)
    } else {
        None
    }
}

/// How deep inside `(` and `{` the line is after the character `c`.
pub open spec fn depth_after(c: char, depth: nat) -> nat {
    if c == '(' || c == '{' {
        depth + 1
    } else if (c == ')' || c == '}') && depth > 0 {
        (depth - 1) as nat
    } else {
        depth
    }
}

/// What one step of the scanner reads at `i`: the tokens it emits, where
/// it goes on, whether that is the start of a line, and the bracket depth
/// there. At the start of a line it reads the indentation; elsewhere one
/// lexical unit. Quotes start a quoted text only inside `(...)` or `{...}`.
pub open spec fn lex_step(s: Seq<char>, i: int, start: bool, depth: nat) -> (Seq<Lexeme>, int, bool, nat) {
    if start {
        let e = spaces_end(s, i);
        if e > i {
            (seq![Lexeme::Indentation((e - i) as nat)], e, false, 0)
        } else {
            (seq![], i, false, 0)
        }
    } else {
        let c = s[i];
        if c == '\n' {
            (seq![Lexeme::EndLine], i + 1, true, 0)
        } else if c == ' ' {
            (seq![Lexeme::Whitespace], spaces_end(s, i), false, depth)
        } else if c == '\r' {
            (seq![], i + 1, false, depth)
        } else if c == '=' {
            if i + 1 < s.len() && s[i + 1] == '>' {
                (seq![Lexeme::Arrow], i + 2, false, depth)
            } else {
                (seq![Lexeme::Equal], i + 1, false, depth)
            }
        } else if c == '\\' {
            if i + 1 < s.len() && s[i + 1] != '\n' {
                (seq![Lexeme::Text(seq![s[i + 1]])], i + 2, false, depth)
            } else {
                (seq![], i + 1, false, depth)
            }
        } else if punct(c) is Some {
            (seq![punct(c)->0], i + 1, false, depth_after(c, depth))
        } else if c == '!' && i + 2 < s.len() && s[i + 1] == '!' && s[i + 2] == '!' {
            (seq![Lexeme::DocType], i + 3, false, depth)
        } else if (c == '"' || c == '\'') && depth > 0 {
            let e = quote_end(s, i + 1, c);
            let next = if e < s.len() && s[e] == c {
                e + 1
            } else {
                e
            };
            (seq![Lexeme::Text(s.subrange(i + 1, e))], next, false, depth)
        } else {
            let e = if run_end(s, i) > i {
                run_end(s, i)
            } else {
                i + 1
            };
            (seq![Lexeme::Text(s.subrange(i, e))], e, false, depth)
        }
    }
}

/// The tokens of `s` from position `i` on.
pub open spec fn lex_from(s: Seq<char>, i: int, start: bool, depth: nat) -> Seq<Lexeme>
    decreases s.len() - i, if start { 1int } else { 0int },
{
    if i < 0 || i >= s.len() {
        seq![]
    } else {
        let (out, next, st, d) = lex_step(s, i, start, depth);
        if next <= s.len() && (next > i || (next == i && start && !st)) {
            out + lex_from(s, next, st, d)
        } else {
            seq![]
        }
    }
}

/// The tokens of a whole template.
pub open spec fn lex(s: Seq<char>) -> Seq<Lexeme> {
    lex_from(s, 0, true, 0)
}

proof fn lemma_run_end(s: Seq<char>, i: int, j: int)
    requires
        0 <= i <= j <= s.len(),
        forall|k: int| i <= k < j ==> !is_special(#[trigger] s[k]),
    ensures
        run_end(s, i) == run_end(s, j),
    decreases j - i,
{
    if i < j {
        lemma_run_end(s, i + 1, j);
    }
}

proof fn lemma_spaces_end(s: Seq<char>, i: int, j: int)
    requires
        0 <= i <= j <= s.len(),
        forall|k: int| i <= k < j ==> #[trigger] s[k] == ' ',
    ensures
        spaces_end(s, i) == spaces_end(s, j),
    decreases j - i,
{
    if i < j {
        lemma_spaces_end(s, i + 1, j);
    }
}

proof fn lemma_quote_end(s: Seq<char>, i: int, j: int, q: char)
    requires
        0 <= i <= j <= s.len(),
        forall|k: int| i <= k < j ==> #[trigger] s[k] != q && s[k] != '\n',
    ensures
        quote_end(s, i, q) == quote_end(s, j, q),
    decreases j - i,
{
    if i < j {
        lemma_quote_end(s, i + 1, j, q);
    }
}

fn punct_token(c: char) -> (r: Option<Token>)
    ensures
        r is Some <==> punct(c) is Some,
        r is Some ==> r->0@ == punct(c)->0,
{
    match c {
        '%' => Some(Token::Percent),
        '.' => Some(Token::Period),
        '#' => Some(Token::Hashtag),
        '/' => Some(Token::Slash),
        '(' => Some(Token::OpenParen),
        ')' => Some(Token::CloseParen),
        '{' => Some(Token::OpenBrace),
        '}' => Some(Token::CloseBrace),
        '[' => Some(Token::OpenBracket),
        ']' => Some(Token::CloseBracket),
        ',' => Some(Token::Comma),
        ':' => Some(Token::Colon),
        _ => None,
    }
}

fn special(c: char) -> (r: bool)
    ensures
        r == is_special(c),
{
    c == ' ' || c == '\n' || c == '\r' || c == '%' || c == '.' || c == '#' || c == '/' || c == '('
        || c == ')' || c == '{' || c == '}' || c == '[' || c == ']' || c == ',' || c == ':' || c == '='
        || c == '\\'
}

fn text_token(s: &Vec<char>, from: usize, to: usize) -> (r: Token)
    requires
        from <= to <= s@.len(),
    ensures
        r@ == Lexeme::Text(s@.subrange(from as int, to as int)),
{
    let mut t = String::new();
    let mut k: usize = from;
    while k < to
        invariant
            from <= k <= to <= s@.len(),
            t@ == s@.subrange(from as int, k as int),
        decreases to - k,
    {
        crate::text::push_char(&mut t, s[k]);
        assert(s@.subrange(from as int, k + 1) =~= s@.subrange(from as int, k as int).push(s@[k as int]));
        k = k + 1;
    }
    Token::Text(t)
}

/// One step of the scanner, as `lex_step` describes it.
fn scan_step(s: &Vec<char>, i: usize, start: bool, depth: usize, out: &mut Vec<Token>) -> (r: (usize, bool, usize))
    requires
        i < s@.len(),
        depth <= i,
    ensures
        ({
            let (toks, next, st, d) = lex_step(s@, i as int, start, depth as nat);
            &&& lexemes(final(out)@) == lexemes(old(out)@) + toks
            &&& r.0 == next
            &&& r.1 == st
            &&& r.2 == d
            &&& r.2 <= r.0
            &&& i <= next <= s@.len()
        }),
        !start ==> r.0 > i,
        start ==> !r.1,
        final(out)@.len() <= old(out)@.len() + (r.0 - i),
{
    let ghost ss = s@;
    let n = s.len();
    let ghost before = out@;
    if start {
        let mut e = i;
        while e < n && s[e] == ' '
            invariant
                ss == s@,
                i <= e <= n == ss.len(),
                forall|k: int| i <= k < e ==> #[trigger] ss[k] == ' ',
            decreases n - e,
        {
            e = e + 1;
        }
        proof {
            lemma_spaces_end(ss, i as int, e as int);
        }
        if e > i {
            out.push(Token::Indentation(e - i));
            assert(lexemes(out@) =~= lexemes(before) + seq![Lexeme::Indentation((e - i) as nat)]);
            return (e, false, 0);
        }
        assert(lexemes(out@) =~= lexemes(before) + seq![]);
        return (i, false, 0);
    }
    let c = s[i];
    if c == '\n' {
        out.push(Token::EndLine);
        assert(lexemes(out@) =~= lexemes(before) + seq![Lexeme::EndLine]);
        (i + 1, true, 0)
    } else if c == ' ' {
        let mut e = i;
        while e < n && s[e] == ' '
            invariant
                ss == s@,
                i <= e <= n == ss.len(),
                forall|k: int| i <= k < e ==> #[trigger] ss[k] == ' ',
            decreases n - e,
        {
            e = e + 1;
        }
        proof {
            lemma_spaces_end(ss, i as int, e as int);
        }
        out.push(Token::Whitespace);
        assert(lexemes(out@) =~= lexemes(before) + seq![Lexeme::Whitespace]);
        (e, false, depth)
    } else if c == '\r' {
        assert(lexemes(out@) =~= lexemes(before) + seq![]);
        (i + 1, false, depth)
    } else if c == '=' {
        if i + 1 < n && s[i + 1] == '>' {
            out.push(Token::Arrow);
            assert(lexemes(out@) =~= lexemes(before) + seq![Lexeme::Arrow]);
            (i + 2, false, depth)
        } else {
            out.push(Token::Equal);
            assert(lexemes(out@) =~= lexemes(before) + seq![Lexeme::Equal]);
            (i + 1, false, depth)
        }
    } else if c == '\\' {
        if i + 1 < n && s[i + 1] != '\n' {
            let t = text_token(s, i + 1, i + 2);
            out.push(t);
            assert(ss.subrange(i + 1, i + 2) =~= seq![ss[i + 1]]);
            assert(lexemes(out@) =~= lexemes(before) + seq![Lexeme::Text(seq![ss[i + 1]])]);
            (i + 2, false, depth)
        } else {
            assert(lexemes(out@) =~= lexemes(before) + seq![]);
            (i + 1, false, depth)
        }
    } else if let Some(t) = punct_token(c) {
        out.push(t);
        assert(lexemes(out@) =~= lexemes(before) + seq![punct(c)->0]);
        let d = if c == '(' || c == '{' {
            depth + 1
        } else if (c == ')' || c == '}') && depth > 0 {
            depth - 1
        } else {
            depth
        };
        (i + 1, false, d)
    } else if c == '!' && n - i > 2 && s[i + 1] == '!' && s[i + 2] == '!' {
        out.push(Token::DocType);
        assert(lexemes(out@) =~= lexemes(before) + seq![Lexeme::DocType]);
        (i + 3, false, depth)
    } else if (c == '"' || c == '\'') && depth > 0 {
        let mut e = i + 1;
        while e < n && s[e] != c && s[e] != '\n'
            invariant
                ss == s@,
                i + 1 <= e <= n == ss.len(),
                forall|k: int| i + 1 <= k < e ==> #[trigger] ss[k] != c && ss[k] != '\n',
            decreases n - e,
        {
            e = e + 1;
        }
        proof {
            lemma_quote_end(ss, i + 1, e as int, c);
        }
        let t = text_token(s, i + 1, e);
        out.push(t);
        assert(lexemes(out@) =~= lexemes(before) + seq![Lexeme::Text(ss.subrange(i + 1, e as int))]);
        if e < n && s[e] == c {
            (e + 1, false, depth)
        } else {
            (e, false, depth)
        }
    } else {
        let mut e = i;
        while e < n && !special(s[e])
            invariant
                ss == s@,
                i <= e <= n == ss.len(),
                forall|k: int| i <= k < e ==> !is_special(#[trigger] ss[k]),
            decreases n - e,
        {
            e = e + 1;
        }
        proof {
            lemma_run_end(ss, i as int, e as int);
        }
        let stop = if e > i {
            e
        } else {
            i + 1
        };
        let t = text_token(s, i, stop);
        out.push(t);
        assert(lexemes(out@) =~= lexemes(before) + seq![Lexeme::Text(ss.subrange(i as int, stop as int))]);
        (stop, false, depth)
    }
}

/// Splits a template into tokens.
pub fn tokenize(source: &str) -> (r: Vec<Token>)
    ensures
        lexemes(r@) == lex(source@),
        r@.len() <= source@.len(),
{
    let s = chars_of(source);
    let n = s.len();
    let mut out: Vec<Token> = Vec::new();
    let mut i: usize = 0;
    let mut start = true;
    let mut depth: usize = 0;
    assert(lexemes(out@) =~= seq![]);
    while i < n
        invariant
            n == s@.len(),
            s@ == source@,
            i <= n,
            depth <= i,
            out@.len() <= i,
            lexemes(out@) + lex_from(s@, i as int, start, depth as nat) == lex(s@),
        decreases n - i, if start { 1int } else { 0int },
    {
        let ghost old_out = out@;
        let (next, st, d) = scan_step(&s, i, start, depth, &mut out);
        proof {
            let (toks, nx, st2, d2) = lex_step(s@, i as int, start, depth as nat);
            if next <= s@.len() && (next > i || (next == i && start && !st)) {
                assert(lex_from(s@, i as int, start, depth as nat) == toks + lex_from(s@, next as int, st, d as nat));
                assert(lexemes(out@) + lex_from(s@, next as int, st, d as nat) =~= lexemes(old_out) + lex_from(s@, i as int, start, depth as nat));
            }
        }
        i = next;
        start = st;
        depth = d;
    }
    assert(lex_from(s@, i as int, start, depth as nat) == Seq::<Lexeme>::empty());
    assert(lexemes(out@) =~= lex(s@));
    out
}

} // verus!
