//! Escaping of post messages, so that a stored message placed in an HTML
//! page reads as text and never as markup.
use vstd::prelude::*;

verus! {

/// What one character becomes: the five characters that open or quote
/// markup, `&` and `/` become character references; the rest stay.
pub open spec fn escape_char(c: char) -> Seq<char> {
    if c == '"' {
        seq!['&', 'q', 'u', 'o', 't', ';']
    } else if c == '&' {
        seq!['&', 'a', 'm', 'p', ';']
    } else if c == '\'' {
        seq!['&', '#', 'x', '2', '7', ';']
    } else if c == '/' {
        seq!['&', '#', 'x', '2', 'f', ';']
    } else if c == '<' {
        seq!['&', 'l', 't', ';']
    } else if c == '>' {
        seq!['&', 'g', 't', ';']
    } else {
        seq![c]
    }
}

/// `s` with every character escaped.
pub open spec fn escaped(s: Seq<char>) -> Seq<char>
    decreases s.len(),
{
    if s.len() == 0 {
        Seq::empty()
    } else {
        escape_char(s[0]) + escaped(s.drop_first())
    }
}

pub open spec fn starts_with(s: Seq<char>, e: Seq<char>) -> bool {
    e.len() <= s.len() && s.subrange(0, e.len() as int) == e
}

/// Reads character references back: each of the six references that
/// escaping writes becomes its character again; everything else is kept.
pub open spec fn unescaped(s: Seq<char>) -> Seq<char>
    decreases s.len(),
{
    if s.len() == 0 {
        Seq::empty()
    } else if starts_with(s, escape_char('"')) {
        seq!['"'] + unescaped(s.subrange(6, s.len() as int))
    } else if starts_with(s, escape_char('&')) {
        seq!['&'] + unescaped(s.subrange(5, s.len() as int))
    } else if starts_with(s, escape_char('\'')) {
        seq!['\''] + unescaped(s.subrange(6, s.len() as int))
    } else if starts_with(s, escape_char('/')) {
        seq!['/'] + unescaped(s.subrange(6, s.len() as int))
    } else if starts_with(s, escape_char('<')) {
        seq!['<'] + unescaped(s.subrange(4, s.len() as int))
    } else if starts_with(s, escape_char('>')) {
        seq!['>'] + unescaped(s.subrange(4, s.len() as int))
    } else {
        seq![s[0]] + unescaped(s.drop_first())
    }
}

/// A character that can open a tag or end an attribute value.
pub open spec fn is_markup_char(c: char) -> bool {
    c == '<' || c == '>' || c == '"' || c == '\''
}

/// Text that holds no character able to start markup.
pub open spec fn is_inert(s: Seq<char>) -> bool {
    forall|i: int| 0 <= i < s.len() ==> !is_markup_char(#[trigger] s[i])
}

/// Relies on v_htmlescape's `escape` and its `Display`, which write each of
/// `"`, `&`, `'`, `/`, `<`, `>` as `&quot;`, `&amp;`, `&#x27;`, `&#x2f;`,
/// `&lt;`, `&gt;` and copy every other character.
#[verifier::external_body]
pub(crate) fn escape_html(s: &str) -> (r: String)
    ensures
        r@ == escaped(s@),
{
    v_htmlescape::escape(s).to_string()
}

/// Escaped text is inert: any message, once escaped, holds no `<`, `>`,
/// `"` or `'`, so embedded in HTML it renders as plain text.
pub proof fn lemma_escaped_is_inert(s: Seq<char>)
    ensures
        is_inert(escaped(s)),
    decreases s.len(),
{
    if s.len() > 0 {
        lemma_escaped_is_inert(s.drop_first());
        let a = escape_char(s[0]);
        let b = escaped(s.drop_first());
        assert(is_inert(a));
        assert forall|i: int| 0 <= i < a.len() + b.len() implies !is_markup_char(
            #[trigger] (a + b)[i],
        ) by {
            if i < a.len() {
                assert((a + b)[i] == a[i]);
            } else {
                assert((a + b)[i] == b[i - a.len()]);
            }
        }
    }
}

/// Escaping loses nothing: reading the references back gives the message.
pub proof fn lemma_unescape_escaped(s: Seq<char>)
    ensures
        unescaped(escaped(s)) == s,
    decreases s.len(),
{
    if s.len() > 0 {
        let c = s[0];
        let rest = s.drop_first();
        lemma_unescape_escaped(rest);
        let e = escape_char(c);
        let x = e + escaped(rest);
        assert(x == escaped(s));
        assert(x.subrange(0, e.len() as int) =~= e);
        assert(x.subrange(e.len() as int, x.len() as int) =~= escaped(rest));
        assert(x[0] == e[0]);
        if e.len() > 1 {
            assert(x[1] == e[1]);
        }
        if e.len() > 2 {
            assert(x[2] == e[2]);
            assert(x[3] == e[3]);
        }
        if e.len() > 4 {
            assert(x[4] == e[4]);
        }
        let q = escape_char('"');
        let m = escape_char('&');
        let ap = escape_char('\'');
        let sl = escape_char('/');
        let lt = escape_char('<');
        let gt = escape_char('>');
        if starts_with(x, q) {
            assert(x.subrange(0, 6)[1] == x[1]);
        }
        if starts_with(x, m) {
            assert(x.subrange(0, 5)[1] == x[1]);
        }
        if starts_with(x, ap) {
            assert(x.subrange(0, 6)[4] == x[4]);
            assert(x.subrange(0, 6)[1] == x[1]);
        }
        if starts_with(x, sl) {
            assert(x.subrange(0, 6)[4] == x[4]);
            assert(x.subrange(0, 6)[1] == x[1]);
        }
        if starts_with(x, lt) {
            assert(x.subrange(0, 4)[1] == x[1]);
        }
        if starts_with(x, gt) {
            assert(x.subrange(0, 4)[1] == x[1]);
        }
        if starts_with(x, q) || starts_with(x, m) || starts_with(x, ap) || starts_with(x, sl)
            || starts_with(x, lt) || starts_with(x, gt) {
            assert(x[0] == '&');
        } else {
            assert(x.drop_first() =~= escaped(rest));
        }
        assert(unescaped(x) =~= s);
    }
}

/// At position `i` of `s` begins one of the six references that escaping
/// writes.
pub open spec fn is_reference_start(s: Seq<char>, i: int) -> bool {
    let t = s.subrange(i, s.len() as int);
    ||| starts_with(t, escape_char('"'))
    ||| starts_with(t, escape_char('&'))
    ||| starts_with(t, escape_char('\''))
    ||| starts_with(t, escape_char('/'))
    ||| starts_with(t, escape_char('<'))
    ||| starts_with(t, escape_char('>'))
}

/// In escaped text every `&` begins a character reference.
pub proof fn lemma_escaped_ampersands(s: Seq<char>)
    ensures
        forall|i: int|
            0 <= i < escaped(s).len() && #[trigger] escaped(s)[i] == '&' ==> is_reference_start(
                escaped(s),
                i,
            ),
    decreases s.len(),
{
    if s.len() > 0 {
        let c = s[0];
        let rest = s.drop_first();
        lemma_escaped_ampersands(rest);
        let e = escape_char(c);
        let r = escaped(rest);
        let x = e + r;
        assert(x == escaped(s));
        assert forall|i: int| 0 <= i < x.len() && #[trigger] x[i] == '&' implies is_reference_start(
            x,
            i,
        ) by {
            if i < e.len() {
                assert(x[i] == e[i]);
                assert(i == 0);
                assert(x.subrange(0, x.len() as int).subrange(0, e.len() as int) =~= e);
            } else {
                let j = i - e.len();
                assert(r[j] == x[i]);
                assert(is_reference_start(r, j));
                assert(x.subrange(i, x.len() as int) =~= r.subrange(j, r.len() as int));
            }
        }
    }
}

} // verus!
