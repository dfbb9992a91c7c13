use vstd::prelude::*;

verus! {

/// Characters that the renderer and the attribute cleaner treat as blank:
/// those with the Unicode `White_Space` property.
pub open spec fn is_blank_char(c: char) -> bool {
    ('\u{9}' <= c && c <= '\u{d}') || c == ' ' || c == '\u{85}' || c == '\u{a0}' || c == '\u{1680}'
        || ('\u{2000}' <= c && c <= '\u{200a}') || c == '\u{2028}' || c == '\u{2029}' || c == '\u{202f}'
        || c == '\u{205f}' || c == '\u{3000}'
}

/// Number of blank characters at the front of `s`.
pub open spec fn lead_blank(s: Seq<char>) -> nat
    decreases s.len(),
{
    if s.len() > 0 && is_blank_char(s[0]) {
        1 + lead_blank(s.drop_first())
    } else {
        0
    }
}

/// Number of blank characters at the back of `s`.
pub open spec fn trail_blank(s: Seq<char>) -> nat
    decreases s.len(),
{
    if s.len() > 0 && is_blank_char(s.last()) {
        1 + trail_blank(s.drop_last())
    } else {
        0
    }
}

/// `s` without its trailing blank characters.
pub open spec fn trim_end_seq(s: Seq<char>) -> Seq<char> {
    s.subrange(0, s.len() - trail_blank(s))
}

/// `s` without its leading blank characters.
pub open spec fn trim_start_seq(s: Seq<char>) -> Seq<char> {
    s.subrange(lead_blank(s) as int, s.len() as int)
}

/// `s` without blank characters at either end.
pub open spec fn trim_seq(s: Seq<char>) -> Seq<char> {
    trim_start_seq(trim_end_seq(s))
}

/// Every apostrophe of `s` turned into a space.
pub open spec fn apostrophes_to_spaces(s: Seq<char>) -> Seq<char> {
    s.map_values(|c: char| if c == '\'' { ' ' } else { c })
}

pub proof fn lemma_lead_blank_bound(s: Seq<char>)
    ensures
        lead_blank(s) <= s.len(),
        forall|i: int| 0 <= i < lead_blank(s) ==> is_blank_char(#[trigger] s[i]),
        lead_blank(s) < s.len() ==> !is_blank_char(s[lead_blank(s) as int]),
    decreases s.len(),
{
    if s.len() > 0 && is_blank_char(s[0]) {
        lemma_lead_blank_bound(s.drop_first());
        assert forall|i: int| 0 <= i < lead_blank(s) implies is_blank_char(#[trigger] s[i]) by {
            if i > 0 {
                assert(s[i] == s.drop_first()[i - 1]);
            }
        }
    }
}

pub proof fn lemma_trail_blank_bound(s: Seq<char>)
    ensures
        trail_blank(s) <= s.len(),
        forall|i: int| s.len() - trail_blank(s) <= i < s.len() ==> is_blank_char(#[trigger] s[i]),
        trail_blank(s) < s.len() ==> !is_blank_char(s[s.len() - trail_blank(s) - 1]),
    decreases s.len(),
{
    if s.len() > 0 && is_blank_char(s.last()) {
        lemma_trail_blank_bound(s.drop_last());
        assert forall|i: int| s.len() - trail_blank(s) <= i < s.len() implies is_blank_char(
            #[trigger] s[i],
        ) by {
            if i < s.len() - 1 {
                assert(s[i] == s.drop_last()[i]);
            }
        }
    }
}

/// A prefix of blank characters followed by a non-blank one (or nothing) is
/// exactly what `lead_blank` counts.
proof fn lemma_lead_blank_exact(s: Seq<char>, n: nat)
    requires
        n <= s.len(),
        forall|i: int| 0 <= i < n ==> is_blank_char(#[trigger] s[i]),
        n < s.len() ==> !is_blank_char(s[n as int]),
    ensures
        lead_blank(s) == n,
    decreases n,
{
    if n > 0 {
        let t = s.drop_first();
        assert forall|i: int| 0 <= i < n - 1 implies is_blank_char(#[trigger] t[i]) by {
            assert(t[i] == s[i + 1]);
        }
        if n - 1 < t.len() {
            assert(t[n - 1] == s[n as int]);
        }
        lemma_lead_blank_exact(t, (n - 1) as nat);
    }
}

proof fn lemma_trail_blank_exact(s: Seq<char>, n: nat)
    requires
        n <= s.len(),
        forall|i: int| s.len() - n <= i < s.len() ==> is_blank_char(#[trigger] s[i]),
        n < s.len() ==> !is_blank_char(s[s.len() - n - 1]),
    ensures
        trail_blank(s) == n,
    decreases n,
{
    if n > 0 {
        let t = s.drop_last();
        assert forall|i: int| t.len() - (n - 1) <= i < t.len() implies is_blank_char(
            #[trigger] t[i],
        ) by {
            assert(t[i] == s[i]);
        }
        if n - 1 < t.len() {
            assert(t[t.len() - (n - 1) - 1] == s[s.len() - n - 1]);
        }
        lemma_trail_blank_exact(t, (n - 1) as nat);
    }
}

/// Trimming is idempotent: a trimmed text has no blank character left at
/// either end, so trimming it again changes nothing.
pub proof fn lemma_trim_idempotent(s: Seq<char>)
    ensures
        trim_seq(trim_seq(s)) == trim_seq(s),
{
    let e = trim_end_seq(s);
    let t = trim_seq(s);
    lemma_trail_blank_bound(s);
    lemma_lead_blank_bound(e);
    // t has no leading blank
    lemma_lead_blank_exact(t, 0);
    // t has no trailing blank
    if t.len() > 0 {
        assert(t.last() == s[s.len() - trail_blank(s) - 1]);
    }
    lemma_trail_blank_exact(t, 0);
    assert(trim_end_seq(t) =~= t);
    assert(trim_start_seq(t) =~= t);
}

/// Relies on String::push: the character is appended at the end.
#[verifier::external_body]
pub(crate) fn push_char(s: &mut String, c: char)
    ensures
        final(s)@ == old(s)@.push(c),
{
    s.push(c);
}

/// Appends the characters of `t` to `s`.
pub fn push_text(s: &mut String, t: &str)
    ensures
        final(s)@ == old(s)@ + t@,
{
    s.append(t);
}

/// The characters of `s` from `from` up to `to`, as a new string.
pub fn substring(s: &str, from: usize, to: usize) -> (r: String)
    requires
        from <= to <= s@.len(),
    ensures
        r@ == s@.subrange(from as int, to as int),
{
    let part = s.substring_char(from, to);
    String::from_str(part)
}

/// `s` with its trailing blank characters removed.
pub fn trim_end(s: &str) -> (r: String)
    ensures
        r@ == trim_end_seq(s@),
{
    let n = s.unicode_len();
    let mut end: usize = n;
    while end > 0 && is_blank(s.get_char(end - 1))
        invariant
            n == s@.len(),
            end <= n,
            forall|i: int| end <= i < n ==> is_blank_char(#[trigger] s@[i]),
        decreases end,
    {
        end = end - 1;
    }
    proof {
        lemma_trail_blank_exact(s@, (n - end) as nat);
    }
    substring(s, 0, end)
}

/// `s` with blank characters removed at both ends.
pub fn trim(s: &str) -> (r: String)
    ensures
        r@ == trim_seq(s@),
{
    let e = trim_end(s);
    let n = e.as_str().unicode_len();
    let mut start: usize = 0;
    while start < n && is_blank(e.as_str().get_char(start))
        invariant
            n == e@.len(),
            start <= n,
            forall|i: int| 0 <= i < start ==> is_blank_char(#[trigger] e@[i]),
        decreases n - start,
    {
        start = start + 1;
    }
    proof {
        lemma_lead_blank_exact(e@, start as nat);
    }
    substring(e.as_str(), start, n)
}

pub fn is_blank(c: char) -> (r: bool)
    ensures
        r == is_blank_char(c),
{
    ('\u{9}' <= c && c <= '\u{d}') || c == ' ' || c == '\u{85}' || c == '\u{a0}' || c == '\u{1680}'
        || ('\u{2000}' <= c && c <= '\u{200a}') || c == '\u{2028}' || c == '\u{2029}' || c == '\u{202f}'
        || c == '\u{205f}' || c == '\u{3000}'
}

/// The characters of `s` as a vector.
pub fn chars_of(s: &str) -> (r: Vec<char>)
    ensures
        r@ == s@,
{
    let n = s.unicode_len();
    let mut r: Vec<char> = Vec::new();
    let mut i: usize = 0;
    while i < n
        invariant
            n == s@.len(),
            i <= n,
            r@ == s@.subrange(0, i as int),
        decreases n - i,
    {
        r.push(s.get_char(i));
        i = i + 1;
    }
    assert(r@ =~= s@);
    r
}

/// `s` with every apostrophe replaced by a space and the ends trimmed.
pub fn clean_value(s: &str) -> (r: String)
    ensures
        r@ == trim_seq(apostrophes_to_spaces(s@)),
{
    let n = s.unicode_len();
    let mut out = String::new();
    let mut i: usize = 0;
    while i < n
        invariant
            n == s@.len(),
            i <= n,
            out@ == apostrophes_to_spaces(s@.subrange(0, i as int)),
        decreases n - i,
    {
        let c = s.get_char(i);
        if c == '\'' {
            push_char(&mut out, ' ');
        } else {
            push_char(&mut out, c);
        }
        assert(s@.subrange(0, i + 1) =~= s@.subrange(0, i as int).push(c));
        assert(apostrophes_to_spaces(s@.subrange(0, i + 1)) =~= out@);
        i = i + 1;
    }
    assert(s@.subrange(0, n as int) =~= s@);
    trim(out.as_str())
}

/// Whether two texts are equal.
pub fn same_text(a: &str, b: &str) -> (r: bool)
    ensures
        r == (a@ == b@),
{
    let n = a.unicode_len();
    let m = b.unicode_len();
    if n != m {
        return false;
    }
    let mut i: usize = 0;
    while i < n
        invariant
            n == a@.len() == m == b@.len(),
            i <= n,
            forall|k: int| 0 <= k < i ==> a@[k] == b@[k],
        decreases n - i,
    {
        if a.get_char(i) != b.get_char(i) {
            return false;
        }
        i = i + 1;
    }
    assert(a@ =~= b@);
    true
}

} // verus!
