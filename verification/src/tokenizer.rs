//! Lexical scanner: raw markup text to an ordered token sequence.
//!
//! The scanner is total and infallible: a single left-to-right pass with one
//! character of lookahead. It carries two pieces of state across the pass, a
//! "pending self-close" flag (set when a void element's name is recognized,
//! which converts the next `>` into a self-close marker) and the identity of
//! the last emitted token (which disambiguates identifier runs into tag
//! names, attribute names and text).

use vstd::prelude::*;
use vstd::string::StrSliceExecFns;
use std::collections::VecDeque;

verus! {

/// Atomic lexical unit produced by the scanner, in document order.
#[derive(Debug)]
pub enum Tokens {
    /// `<`
    LessThan,
    /// `</`
    ClosingTag,
    /// `>`
    GreaterThan,
    /// `/>`, or the `>` of a void element
    SelfClosingTagEnd,
    /// a tag name such as `div`
    Identifier(String),
    /// an attribute name such as `href`
    Attribute(String),
    /// `=`
    Equals,
    /// a quoted attribute value, quotes stripped, no escape processing
    StringLiteral(String),
    /// literal text between tags
    Text(String),
    /// end-of-input marker, always the last token
    EOF,
}

/// Mathematical image of a token: text payloads as character sequences.
pub enum TokView {
    LessThan,
    ClosingTag,
    GreaterThan,
    SelfClosingTagEnd,
    Identifier(Seq<char>),
    Attribute(Seq<char>),
    Equals,
    StringLiteral(Seq<char>),
    Text(Seq<char>),
    EOF,
}

impl View for Tokens {
    type V = TokView;

    open spec fn view(&self) -> TokView {
        match self {
            Tokens::LessThan => TokView::LessThan,
            Tokens::ClosingTag => TokView::ClosingTag,
            Tokens::GreaterThan => TokView::GreaterThan,
            Tokens::SelfClosingTagEnd => TokView::SelfClosingTagEnd,
            Tokens::Identifier(s) => TokView::Identifier(s@),
            Tokens::Attribute(s) => TokView::Attribute(s@),
            Tokens::Equals => TokView::Equals,
            Tokens::StringLiteral(s) => TokView::StringLiteral(s@),
            Tokens::Text(s) => TokView::Text(s@),
            Tokens::EOF => TokView::EOF,
        }
    }
}

/// The views of a sequence of tokens, element by element.
pub open spec fn toks_view(s: Seq<Tokens>) -> Seq<TokView> {
    s.map_values(|t: Tokens| t@)
}

/// Kind of the last token the scanner emitted, as far as classification of
/// identifier runs cares about it.
#[derive(Clone, Copy, PartialEq, Eq, Structural)]
pub enum LastToken {
    /// nothing emitted yet
    Start,
    /// `<`
    Lt,
    /// `</`
    CloseTag,
    /// a tag name
    Ident,
    /// anything else
    Other,
}

/// The characters Rust's `char::is_whitespace` accepts: the Unicode
/// `White_Space` code points.
pub open spec fn is_space(c: char) -> bool {
    let u = c as u32;
    ||| u == 0x9
    ||| u == 0xA
    ||| u == 0xB
    ||| u == 0xC
    ||| u == 0xD
    ||| u == 0x20
    ||| u == 0x85
    ||| u == 0xA0
    ||| u == 0x1680
    ||| (0x2000 <= u && u <= 0x200A)
    ||| u == 0x2028
    ||| u == 0x2029
    ||| u == 0x202F
    ||| u == 0x205F
    ||| u == 0x3000
}

/// Whether `c` ends an identifier run. Whitespace ends the run only directly
/// after a `<`, where the run is a tag name.
pub open spec fn is_run_break(c: char, after_open: bool) -> bool {
    ||| (is_space(c) && after_open)
    ||| c == '/'
    ||| c == '>'
    ||| c == '<'
    ||| c == '='
    ||| c == '"'
}

/// First position at or after `i` whose character ends an identifier run,
/// or the input's length if none does.
pub open spec fn run_end(s: Seq<char>, i: int, after_open: bool) -> int
    decreases s.len() - i,
{
    if i >= s.len() {
        s.len() as int
    } else if is_run_break(s[i], after_open) {
        i
    } else {
        run_end(s, i + 1, after_open)
    }
}

/// First position at or after `i` holding a `"`, or the input's length.
pub open spec fn quote_end(s: Seq<char>, i: int) -> int
    decreases s.len() - i,
{
    if i >= s.len() {
        s.len() as int
    } else if s[i] == '"' {
        i
    } else {
        quote_end(s, i + 1)
    }
}

/// Position just past the first `>` at or after `i`, or the input's length:
/// where scanning resumes after an unrecognized `<!` construct.
pub open spec fn doctype_end(s: Seq<char>, i: int) -> int
    decreases s.len() - i,
{
    if i >= s.len() {
        s.len() as int
    } else if s[i] == '>' {
        i + 1
    } else {
        doctype_end(s, i + 1)
    }
}

/// Position just past the `-->` that closes a comment whose body starts at
/// `i`, or the input's length if the comment is unterminated. A `--` not
/// followed by `>` is consumed whole before scanning goes on.
pub open spec fn comment_end(s: Seq<char>, i: int) -> int
    decreases s.len() - i,
{
    if i >= s.len() {
        s.len() as int
    } else if s[i] == '-' && i + 1 < s.len() && s[i + 1] == '-' {
        if i + 2 < s.len() && s[i + 2] == '>' {
            i + 3
        } else {
            comment_end(s, i + 2)
        }
    } else {
        comment_end(s, i + 1)
    }
}

pub proof fn lemma_run_end_bounds(s: Seq<char>, i: int, after_open: bool)
    requires
        i <= s.len(),
    ensures
        i <= run_end(s, i, after_open) <= s.len(),
    decreases s.len() - i,
{
    if i < s.len() && !is_run_break(s[i], after_open) {
        lemma_run_end_bounds(s, i + 1, after_open);
    }
}

pub proof fn lemma_quote_end_bounds(s: Seq<char>, i: int)
    requires
        i <= s.len(),
    ensures
        i <= quote_end(s, i) <= s.len(),
    decreases s.len() - i,
{
    if i < s.len() && s[i] != '"' {
        lemma_quote_end_bounds(s, i + 1);
    }
}

pub proof fn lemma_doctype_end_bounds(s: Seq<char>, i: int)
    requires
        i <= s.len(),
    ensures
        i <= doctype_end(s, i) <= s.len(),
    decreases s.len() - i,
{
    if i < s.len() && s[i] != '>' {
        lemma_doctype_end_bounds(s, i + 1);
    }
}

pub proof fn lemma_comment_end_bounds(s: Seq<char>, i: int)
    requires
        i <= s.len(),
    ensures
        i <= comment_end(s, i) <= s.len(),
    decreases s.len() - i,
{
    if i < s.len() {
        if s[i] == '-' && i + 1 < s.len() && s[i + 1] == '-' {
            if !(i + 2 < s.len() && s[i + 2] == '>') {
                lemma_comment_end_bounds(s, i + 2);
            }
        } else {
            lemma_comment_end_bounds(s, i + 1);
        }
    }
}

/// The tag names that never have children and never take an explicit close
/// tag; recognizing one arms the pending self-close flag.
pub open spec fn is_void_tag(name: Seq<char>) -> bool {
    ||| name == "area"@
    ||| name == "base"@
    ||| name == "br"@
    ||| name == "col"@
    ||| name == "embed"@
    ||| name == "hr"@
    ||| name == "img"@
    ||| name == "input"@
    ||| name == "link"@
    ||| name == "meta"@
    ||| name == "param"@
    ||| name == "source"@
    ||| name == "track"@
    ||| name == "wbr"@
}

/// The tokens emitted from position `i` to the end of the input, given the
/// pending self-close flag and the kind of the last emitted token. The
/// end-of-input marker is always the last token.
pub open spec fn scan(s: Seq<char>, i: int, pending: bool, last: LastToken) -> Seq<TokView>
    decreases s.len() - i,
{
    if i >= s.len() {
        seq![TokView::EOF]
    } else {
        let c = s[i];
        if c == '<' {
            if i + 1 < s.len() && s[i + 1] == '/' {
                seq![TokView::ClosingTag] + scan(s, i + 2, pending, LastToken::CloseTag)
            } else if i + 1 < s.len() && s[i + 1] == '!' {
                if i + 2 < s.len() && s[i + 2] == '-' {
                    if i + 3 < s.len() && s[i + 3] == '-' {
                        proof {
                            lemma_comment_end_bounds(s, i + 4);
                        }
                        scan(s, comment_end(s, i + 4), pending, last)
                    } else {
                        proof {
                            lemma_doctype_end_bounds(s, i + 3);
                        }
                        scan(s, doctype_end(s, i + 3), pending, last)
                    }
                } else {
                    proof {
                        lemma_doctype_end_bounds(s, i + 2);
                    }
                    scan(s, doctype_end(s, i + 2), pending, last)
                }
            } else {
                seq![TokView::LessThan] + scan(s, i + 1, pending, LastToken::Lt)
            }
        } else if c == '>' {
            if pending {
                seq![TokView::SelfClosingTagEnd] + scan(s, i + 1, false, LastToken::Other)
            } else {
                seq![TokView::GreaterThan] + scan(s, i + 1, pending, LastToken::Other)
            }
        } else if c == '=' {
            seq![TokView::Equals] + scan(s, i + 1, pending, LastToken::Other)
        } else if c == '"' {
            let j = quote_end(s, i + 1);
            proof {
                lemma_quote_end_bounds(s, i + 1);
            }
            let lit = TokView::StringLiteral(s.subrange(i + 1, j));
            if j < s.len() {
                seq![lit] + scan(s, j + 1, pending, LastToken::Other)
            } else {
                seq![lit] + scan(s, j, pending, LastToken::Other)
            }
        } else if c == '/' && i + 1 < s.len() && s[i + 1] == '>' {
            seq![TokView::SelfClosingTagEnd] + scan(s, i + 2, false, LastToken::Other)
        } else if is_space(c) {
            scan(s, i + 1, pending, last)
        } else {
            let j = run_end(s, i + 1, last == LastToken::Lt);
            proof {
                lemma_run_end_bounds(s, i + 1, last == LastToken::Lt);
            }
            let run = s.subrange(i, j);
            if last == LastToken::Lt || last == LastToken::CloseTag {
                let pending2 = if is_void_tag(run) {
                    true
                } else {
                    pending
                };
                seq![TokView::Identifier(run)] + scan(s, j, pending2, LastToken::Ident)
            } else if j < s.len() && s[j] == '=' {
                seq![TokView::Attribute(run)] + scan(s, j, pending, LastToken::Other)
            } else if j < s.len() && is_space(s[j]) && last == LastToken::Ident {
                seq![TokView::Attribute(run)] + scan(s, j, pending, LastToken::Other)
            } else {
                seq![TokView::Text(run)] + scan(s, j, pending, LastToken::Other)
            }
        }
    }
}

/// What `tokenize` returns: the whole scan, from the start of the input,
/// with the flag clear and nothing emitted yet.
pub open spec fn spec_tokenize(s: Seq<char>) -> Seq<TokView> {
    scan(s, 0, false, LastToken::Start)
}

/// Character-by-character string equality.
pub fn str_eq(a: &str, b: &str) -> (r: bool)
    ensures
        r == (a@ == b@),
{
    let n = a.unicode_len();
    let m = b.unicode_len();
    if n != m {
        return false;
    }
    let mut k: usize = 0;
    while k < n
        invariant
            k <= n,
            n == a@.len(),
            n == b@.len(),
            forall|t: int| 0 <= t < k ==> a@[t] == b@[t],
        decreases n - k,
    {
        if a.get_char(k) != b.get_char(k) {
            return false;
        }
        k = k + 1;
    }
    proof {
        assert(a@ =~= b@);
    }
    true
}

/// Whether `c` is whitespace, as `char::is_whitespace` counts it.
fn is_whitespace_char(c: char) -> (r: bool)
    ensures
        r == is_space(c),
{
    let u = c as u32;
    u == 0x9 || u == 0xA || u == 0xB || u == 0xC || u == 0xD || u == 0x20 || u == 0x85
        || u == 0xA0 || u == 0x1680 || (0x2000 <= u && u <= 0x200A) || u == 0x2028 || u == 0x2029
        || u == 0x202F || u == 0x205F || u == 0x3000
}

/// Whether `name` is one of the void element names.
fn is_void_name(name: &str) -> (r: bool)
    ensures
        r == is_void_tag(name@),
{
    str_eq(name, "area") || str_eq(name, "base") || str_eq(name, "br") || str_eq(name, "col")
        || str_eq(name, "embed") || str_eq(name, "hr") || str_eq(name, "img") || str_eq(
        name,
        "input",
    ) || str_eq(name, "link") || str_eq(name, "meta") || str_eq(name, "param") || str_eq(
        name,
        "source",
    ) || str_eq(name, "track") || str_eq(name, "wbr")
}

/// Whether `c` ends an identifier run.
fn is_break_char(c: char, after_open: bool) -> (r: bool)
    ensures
        r == is_run_break(c, after_open),
{
    (after_open && is_whitespace_char(c)) || c == '/' || c == '>' || c == '<' || c == '='
        || c == '"'
}

/// Where the identifier run whose first character sits just before `i` ends.
fn find_run_end(s: &str, i: usize, after_open: bool) -> (j: usize)
    requires
        i <= s@.len(),
    ensures
        j == run_end(s@, i as int, after_open),
        i <= j <= s@.len(),
{
    let n = s.unicode_len();
    let mut j = i;
    while j < n
        invariant
            i <= j <= n,
            n == s@.len(),
            run_end(s@, i as int, after_open) == run_end(s@, j as int, after_open),
        decreases n - j,
    {
        let c = s.get_char(j);
        if is_break_char(c, after_open) {
            return j;
        }
        j = j + 1;
    }
    j
}

/// Where the quoted literal whose opening quote sits just before `i` ends.
fn find_quote_end(s: &str, i: usize) -> (j: usize)
    requires
        i <= s@.len(),
    ensures
        j == quote_end(s@, i as int),
        i <= j <= s@.len(),
{
    let n = s.unicode_len();
    let mut j = i;
    while j < n
        invariant
            i <= j <= n,
            n == s@.len(),
            quote_end(s@, i as int) == quote_end(s@, j as int),
        decreases n - j,
    {
        let c = s.get_char(j);
        if c == '"' {
            return j;
        }
        j = j + 1;
    }
    j
}

/// Resume position after an unrecognized `<!` construct beginning at `i`.
fn skip_doctype(s: &str, i: usize) -> (j: usize)
    requires
        i <= s@.len(),
    ensures
        j == doctype_end(s@, i as int),
        i <= j <= s@.len(),
{
    let n = s.unicode_len();
    let mut j = i;
    while j < n
        invariant
            i <= j <= n,
            n == s@.len(),
            doctype_end(s@, i as int) == doctype_end(s@, j as int),
        decreases n - j,
    {
        let c = s.get_char(j);
        if c == '>' {
            return j + 1;
        }
        j = j + 1;
    }
    j
}

/// Resume position after a comment whose body begins at `i`.
fn skip_comment(s: &str, i: usize) -> (j: usize)
    requires
        i <= s@.len(),
    ensures
        j == comment_end(s@, i as int),
        i <= j <= s@.len(),
{
    let n = s.unicode_len();
    let mut j = i;
    while j < n
        invariant
            i <= j <= n,
            n == s@.len(),
            comment_end(s@, i as int) == comment_end(s@, j as int),
        decreases n - j,
    {
        let c = s.get_char(j);
        if c == '-' && j + 1 < n && s.get_char(j + 1) == '-' {
            if j + 2 < n && s.get_char(j + 2) == '>' {
                return j + 3;
            }
            j = j + 2;
        } else {
            j = j + 1;
        }
    }
    j
}

/// Emitting one token extends the emitted views by that token's view.
proof fn lemma_emit(a: Seq<Tokens>, t: Tokens, b: Seq<TokView>)
    ensures
        toks_view(a.push(t)) + b == toks_view(a) + (seq![t@] + b),
{
    assert(toks_view(a.push(t)) + b =~= toks_view(a) + (seq![t@] + b));
}

/// Scanner: one left-to-right pass over the input with one character of
/// lookahead, total and infallible. The returned sequence is exactly the
/// token-by-token scan of the input and always ends with the end-of-input
/// marker.
pub fn tokenize(input: &str) -> (r: VecDeque<Tokens>)
    ensures
        toks_view(r@) == spec_tokenize(input@),
{
    let ghost s = input@;
    let n = input.unicode_len();
    let mut tokens: VecDeque<Tokens> = VecDeque::new();
    let mut i: usize = 0;
    let mut pending: bool = false;
    let mut last: LastToken = LastToken::Start;
    while i < n
        invariant
            i <= n,
            n == s.len(),
            s == input@,
            spec_tokenize(s) == toks_view(tokens@) + scan(s, i as int, pending, last),
        decreases n - i,
    {
        let ghost pre = tokens@;
        let ghost i0 = i as int;
        let ghost p0 = pending;
        let ghost l0 = last;
        let c = input.get_char(i);
        if c == '<' {
            if i + 1 < n && input.get_char(i + 1) == '/' {
                proof {
                    lemma_emit(pre, Tokens::ClosingTag, scan(s, i0 + 2, p0, LastToken::CloseTag));
                }
                tokens.push_back(Tokens::ClosingTag);
                last = LastToken::CloseTag;
                i = i + 2;
            } else if i + 1 < n && input.get_char(i + 1) == '!' {
                if i + 2 < n && input.get_char(i + 2) == '-' {
                    if i + 3 < n && input.get_char(i + 3) == '-' {
                        let j = skip_comment(input, i + 4);
                        proof {
                            assert(scan(s, i0, p0, l0) == scan(s, j as int, p0, l0));
                        }
                        i = j;
                    } else {
                        let j = skip_doctype(input, i + 3);
                        proof {
                            assert(scan(s, i0, p0, l0) == scan(s, j as int, p0, l0));
                        }
                        i = j;
                    }
                } else {
                    let j = skip_doctype(input, i + 2);
                    proof {
                        assert(scan(s, i0, p0, l0) == scan(s, j as int, p0, l0));
                    }
                    i = j;
                }
            } else {
                proof {
                    lemma_emit(pre, Tokens::LessThan, scan(s, i0 + 1, p0, LastToken::Lt));
                }
                tokens.push_back(Tokens::LessThan);
                last = LastToken::Lt;
                i = i + 1;
            }
        } else if c == '>' {
            if pending {
                proof {
                    lemma_emit(
                        pre,
                        Tokens::SelfClosingTagEnd,
                        scan(s, i0 + 1, false, LastToken::Other),
                    );
                }
                tokens.push_back(Tokens::SelfClosingTagEnd);
                pending = false;
            } else {
                proof {
                    lemma_emit(pre, Tokens::GreaterThan, scan(s, i0 + 1, p0, LastToken::Other));
                }
                tokens.push_back(Tokens::GreaterThan);
            }
            last = LastToken::Other;
            i = i + 1;
        } else if c == '=' {
            proof {
                lemma_emit(pre, Tokens::Equals, scan(s, i0 + 1, p0, LastToken::Other));
            }
            tokens.push_back(Tokens::Equals);
            last = LastToken::Other;
            i = i + 1;
        } else if c == '"' {
            let j = find_quote_end(input, i + 1);
            let tok = Tokens::StringLiteral(input.substring_char(i + 1, j).to_owned());
            let ghost ni: int = if j < n {
                j as int + 1
            } else {
                j as int
            };
            proof {
                assert(scan(s, i0, p0, l0) == seq![TokView::StringLiteral(
                    s.subrange(i0 + 1, j as int),
                )] + scan(s, ni, p0, LastToken::Other));
                lemma_emit(pre, tok, scan(s, ni, p0, LastToken::Other));
            }
            tokens.push_back(tok);
            last = LastToken::Other;
            if j < n {
                i = j + 1;
            } else {
                i = j;
            }
        } else if c == '/' && i + 1 < n && input.get_char(i + 1) == '>' {
            proof {
                lemma_emit(pre, Tokens::SelfClosingTagEnd, scan(s, i0 + 2, false, LastToken::Other));
            }
            tokens.push_back(Tokens::SelfClosingTagEnd);
            pending = false;
            last = LastToken::Other;
            i = i + 2;
        } else if is_whitespace_char(c) {
            proof {
                assert(scan(s, i0, p0, l0) == scan(s, i0 + 1, p0, l0));
            }
            i = i + 1;
        } else {
            let after_open = last == LastToken::Lt;
            let j = find_run_end(input, i + 1, after_open);
            let run_str = input.substring_char(i, j);
            let ghost run = s.subrange(i0, j as int);
            if last == LastToken::Lt || last == LastToken::CloseTag {
                let void = is_void_name(run_str);
                let tok = Tokens::Identifier(run_str.to_owned());
                let ghost p2 = if is_void_tag(run) {
                    true
                } else {
                    p0
                };
                proof {
                    assert(scan(s, i0, p0, l0) == seq![TokView::Identifier(run)] + scan(
                        s,
                        j as int,
                        p2,
                        LastToken::Ident,
                    ));
                    lemma_emit(pre, tok, scan(s, j as int, p2, LastToken::Ident));
                }
                if void {
                    pending = true;
                }
                tokens.push_back(tok);
                last = LastToken::Ident;
            } else {
                let next_is_eq = j < n && input.get_char(j) == '=';
                let next_is_space_after_ident = j < n && is_whitespace_char(input.get_char(j))
                    && last == LastToken::Ident;
                if next_is_eq || next_is_space_after_ident {
                    let tok = Tokens::Attribute(run_str.to_owned());
                    proof {
                        assert(scan(s, i0, p0, l0) == seq![TokView::Attribute(run)] + scan(
                            s,
                            j as int,
                            p0,
                            LastToken::Other,
                        ));
                        lemma_emit(pre, tok, scan(s, j as int, p0, LastToken::Other));
                    }
                    tokens.push_back(tok);
                } else {
                    let tok = Tokens::Text(run_str.to_owned());
                    proof {
                        assert(scan(s, i0, p0, l0) == seq![TokView::Text(run)] + scan(
                            s,
                            j as int,
                            p0,
                            LastToken::Other,
                        ));
                        lemma_emit(pre, tok, scan(s, j as int, p0, LastToken::Other));
                    }
                    tokens.push_back(tok);
                }
                last = LastToken::Other;
            }
            i = j;
        }
    }
    proof {
        assert(toks_view(tokens@.push(Tokens::EOF)) =~= toks_view(tokens@) + seq![TokView::EOF]);
        assert(scan(s, i as int, pending, last) == seq![TokView::EOF]);
    }
    tokens.push_back(Tokens::EOF);
    tokens
}

} // verus!
