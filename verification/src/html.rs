use vstd::prelude::*;
use vstd::string::StringExecFns;

verus! {

/// The text a page request carries, to be placed into the page body.
pub struct Content {
    pub content: String,
}

/// How one character appears after HTML text encoding: the markup
/// characters become entities, everything else stands for itself.
pub open spec fn html_escaped_char(c: char) -> Seq<char> {
    if c == '&' {
        seq!['&', 'a', 'm', 'p', ';']
    } else if c == '<' {
        seq!['&', 'l', 't', ';']
    } else if c == '>' {
        seq!['&', 'g', 't', ';']
    } else {
        seq![c]
    }
}

/// A whole text after HTML text encoding.
pub open spec fn html_escaped(s: Seq<char>) -> Seq<char>
    decreases s.len(),
{
    if s.len() == 0 {
        Seq::empty()
    } else {
        html_escaped_char(s[0]) + html_escaped(s.skip(1))
    }
}

/// Relies on `html_escape::encode_text`: it replaces `&` with `&amp;`,
/// `<` with `&lt;` and `>` with `&gt;`, and leaves every other character
/// unchanged.
#[verifier::external_body]
fn html_encode_text(s: &str) -> (r: String)
    ensures
        r@ == html_escaped(s@),
{
    html_escape::encode_text(s).into_owned()
}

/// A text with every double quote replaced by its entity, applied after
/// the text encoding.
pub open spec fn quote_escaped(s: Seq<char>) -> Seq<char>
    decreases s.len(),
{
    if s.len() == 0 {
        Seq::empty()
    } else {
        (if s[0] == '"' {
            seq!['&', 'q', 'u', 'o', 't', ';']
        } else {
            seq![s[0]]
        }) + quote_escaped(s.skip(1))
    }
}

/// `quote_escaped` distributes over appending one character at the end.
proof fn lemma_quote_escaped_snoc(s: Seq<char>, c: char)
    ensures
        quote_escaped(s.push(c)) == quote_escaped(s) + (if c == '"' {
            seq!['&', 'q', 'u', 'o', 't', ';']
        } else {
            seq![c]
        }),
    decreases s.len(),
{
    let e = if c == '"' {
        seq!['&', 'q', 'u', 'o', 't', ';']
    } else {
        seq![c]
    };
    assert(seq![c].len() == 1);
    assert(seq![c][0] == c);
    assert(seq![c].skip(1) =~= Seq::<char>::empty());
    assert(quote_escaped(seq![c]) == (if c == '"' {
        seq!['&', 'q', 'u', 'o', 't', ';']
    } else {
        seq![c]
    }) + quote_escaped(seq![c].skip(1)));
    assert(quote_escaped(seq![c].skip(1)) == Seq::<char>::empty());
    assert(quote_escaped(seq![c]) =~= e);
    if s.len() == 0 {
        assert(s.push(c)[0] == c);
        assert(s.push(c).skip(1) =~= Seq::<char>::empty());
        assert(quote_escaped(s.push(c).skip(1)) == Seq::<char>::empty());
        assert(quote_escaped(s) == Seq::<char>::empty());
        assert(quote_escaped(s.push(c)) =~= quote_escaped(s) + e);
    } else {
        assert(s.push(c)[0] == s[0]);
        assert(s.push(c).skip(1) =~= s.skip(1).push(c));
        lemma_quote_escaped_snoc(s.skip(1), c);
        assert(quote_escaped(s.push(c)) =~= quote_escaped(s) + e);
    }
}

/// Replace every double quote with its entity.
fn escape_quotes(s: &str) -> (r: String)
    ensures
        r@ == quote_escaped(s@),
{
    let n = s.unicode_len();
    let mut out = String::new();
    let mut i: usize = 0;
    while i < n
        invariant
            n == s@.len(),
            i <= n,
            out@ == quote_escaped(s@.take(i as int)),
        decreases n - i,
    {
        let c = s.get_char(i);
        if c == '"' {
            out.push('&');
            out.push('q');
            out.push('u');
            out.push('o');
            out.push('t');
            out.push(';');
        } else {
            out.push(c);
        }
        proof {
            assert(s@.take(i + 1) =~= s@.take(i as int).push(c));
            lemma_quote_escaped_snoc(s@.take(i as int), c);
            assert(seq![c].skip(1) =~= Seq::<char>::empty());
            assert(out@ =~= quote_escaped(s@.take(i + 1)));
        }
        i = i + 1;
    }
    proof {
        assert(s@.take(n as int) =~= s@);
    }
    out
}

/// The page a rendered body is wrapped into.
pub open spec fn page_of(body: Seq<char>) -> Seq<char> {
    "<html>\n  <head>\n    <title>CCH23 Day 14</title>\n  </head>\n  <body>\n    "@ + body
        + "\n  </body>\n</html>"@
}

/// Wrap a body into the page.
fn wrap_page(body: &str) -> (r: String)
    ensures
        r@ == page_of(body@),
{
    let mut out = String::from_str(
        "<html>\n  <head>\n    <title>CCH23 Day 14</title>\n  </head>\n  <body>\n    ",
    );
    out.append(body);
    out.append("\n  </body>\n</html>");
    out
}

impl Content {
    /// Render the content into the page exactly as given, markup and all.
    pub fn render_unescaped(&self) -> (r: String)
        ensures
            r@ == page_of(self.content@),
    {
        wrap_page(self.content.as_str())
    }

    /// Render the content into the page with markup characters and double
    /// quotes replaced by their entities.
    pub fn render_escaped(&self) -> (r: String)
        ensures
            r@ == page_of(quote_escaped(html_escaped(self.content@))),
    {
        let encoded = html_encode_text(self.content.as_str());
        let safe = escape_quotes(encoded.as_str());
        wrap_page(safe.as_str())
    }
}

} // verus!
