use vstd::prelude::*;
use std::num::{ParseFloatError, ParseIntError};
use crate::common::text::{decimal, join, push_char, push_decimal, push_str};

verus! {

broadcast use vstd::string::axiom_spec_iter;

#[verifier::external_type_specification]
#[verifier::external_body]
pub struct ExParseIntError(ParseIntError);

#[verifier::external_type_specification]
#[verifier::external_body]
pub struct ExParseFloatError(ParseFloatError);

#[verifier::external_type_specification]
#[verifier::external_body]
pub struct ExIoError(std::io::Error);

/// Errors of parsing.
#[derive(Debug)]
pub enum Error {
    /// The text does not follow the grammar; the message says where.
    Syntax(String),
    /// An integer literal that does not fit an `i32`.
    InvalidNumber { literal: String, line: usize, column: usize, source: ParseIntError },
    /// A float literal that cannot be read.
    InvalidFloat { literal: String, line: usize, column: usize, source: ParseFloatError },
    /// Writing the output failed.
    Io(std::io::Error),
    /// The parse tree does not have the expected shape; the message says where.
    Grammar(String),
}

/// The value of the decimal digits `s`.
pub open spec fn digits_value(s: Seq<char>) -> int
    decreases s.len(),
{
    if s.len() == 0 {
        0
    } else {
        digits_value(s.drop_last()) * 10 + (s.last() as int - 48)
    }
}

/// Whether `s` is a non-empty run of decimal digits.
pub open spec fn all_digits(s: Seq<char>) -> bool {
    s.len() > 0 && forall|k: int| 0 <= k < s.len() ==> '0' <= #[trigger] s[k] <= '9'
}

/// The integer that `s` denotes as an `i32` literal: an optional sign, then
/// decimal digits, the value in range.
pub open spec fn i32_literal(s: Seq<char>) -> Option<i32> {
    let (neg, digits) = if s.len() > 0 && (s[0] == '-' || s[0] == '+') {
        (s[0] == '-', s.drop_first())
    } else {
        (false, s)
    };
    let v = if neg {
        -digits_value(digits)
    } else {
        digits_value(digits)
    };
    if all_digits(digits) && i32::MIN <= v <= i32::MAX {
        Some(v as i32)
    } else {
        None
    }
}

/// Reads an `i32` literal (`str::parse::<i32>`): a sign, then digits, in range.
#[verifier::external_body]
fn parse_i32(s: &str) -> (r: Result<i32, ParseIntError>)
    ensures
        r is Ok <==> i32_literal(s@) is Some,
        r matches Ok(v) ==> i32_literal(s@) == Some(v),
{
    s.parse::<i32>()
}

/// Reads the integer literal `literal`, found at `line` and `column`.
pub fn parse_num(literal: &str, line: usize, column: usize) -> (r: Result<i32, Error>)
    ensures
        i32_literal(literal@) matches Some(v) ==> r == Ok::<i32, Error>(v),
        i32_literal(literal@) is None ==> (r matches Err(Error::InvalidNumber { literal: l, line: a, column: b, .. })
            && l@ == literal@ && a == line && b == column),
{
    match parse_i32(literal) {
        Ok(v) => Ok(v),
        Err(source) => Err(Error::InvalidNumber { literal: literal.to_string(), line, column, source }),
    }
}

/// A grammar error with the message `context`.
pub fn grammar_error_static(context: &str) -> (r: Error)
    ensures
        r matches Error::Grammar(m) && m@ == context@,
{
    let mut m = String::new();
    push_str(&mut m, context);
    Error::Grammar(m)
}

/// The message of a grammar error found at a place of the source.
pub open spec fn grammar_message(context: Seq<char>, line: nat, column: nat, near: Seq<char>) -> Seq<char> {
    context + " at line "@ + decimal(line) + ", column "@ + decimal(column) + ", near `"@ + near
        + seq!['`']
}

/// A grammar error found at `line` and `column`, quoting the text there.
pub fn grammar_error(context: &str, line: usize, column: usize, span_text: &str) -> (r: Error)
    ensures
        r matches Error::Grammar(m) && m@ == grammar_message(
            context@,
            line as nat,
            column as nat,
            snippet_text(span_text@),
        ),
{
    let near = compact_snippet(span_text);
    let mut m = String::new();
    push_str(&mut m, context);
    push_str(&mut m, " at line ");
    push_decimal(&mut m, line as u64);
    push_str(&mut m, ", column ");
    push_decimal(&mut m, column as u64);
    push_str(&mut m, ", near `");
    push_str(&mut m, near.as_str());
    push_char(&mut m, '`');
    assert(m@ =~= grammar_message(context@, line as nat, column as nat, snippet_text(span_text@)));
    Error::Grammar(m)
}

/// The longest snippet of source text that an error message quotes.
pub const MAX_SNIPPET_CHARS: usize = 48;

/// Whether `c` has the Unicode `White_Space` property.
pub open spec fn is_ws(c: char) -> bool {
    let u = c as u32;
    ||| 0x09 <= u <= 0x0d
    ||| u == 0x20
    ||| u == 0x85
    ||| u == 0xa0
    ||| u == 0x1680
    ||| 0x2000 <= u <= 0x200a
    ||| u == 0x2028
    ||| u == 0x2029
    ||| u == 0x202f
    ||| u == 0x205f
    ||| u == 0x3000
}

/// Decides `is_ws` (as `char::is_whitespace` does).
pub fn is_whitespace(c: char) -> (r: bool)
    ensures
        r == is_ws(c),
{
    let u = c as u32;
    (0x09 <= u && u <= 0x0d) || u == 0x20 || u == 0x85 || u == 0xa0 || u == 0x1680 || (0x2000 <= u
        && u <= 0x200a) || u == 0x2028 || u == 0x2029 || u == 0x202f || u == 0x205f || u == 0x3000
}

/// The maximal runs of characters of `s` that are not whitespace, in order.
pub open spec fn words(s: Seq<char>) -> Seq<Seq<char>>
    decreases s.len(),
{
    if s.len() == 0 {
        Seq::empty()
    } else {
        let w = words(s.drop_last());
        let c = s.last();
        if is_ws(c) {
            w
        } else if s.len() >= 2 && !is_ws(s[s.len() - 2]) {
            w.update(w.len() - 1, w.last().push(c))
        } else {
            w.push(seq![c])
        }
    }
}

/// The words of `s`, separated by single spaces.
pub open spec fn compact(s: Seq<char>) -> Seq<char> {
    join(words(s), seq![' '])
}

/// How a snippet of source text is quoted: its words separated by single
/// spaces, cut after the first 48 characters with `...` appended, and
/// `<empty>` when it holds no word.
pub open spec fn snippet_text(s: Seq<char>) -> Seq<char> {
    let c = compact(s);
    if c.len() == 0 {
        "<empty>"@
    } else if c.len() > MAX_SNIPPET_CHARS {
        c.take(MAX_SNIPPET_CHARS as int) + "..."@
    } else {
        c
    }
}

/// The characters of `s`.
pub fn chars_of(s: &str) -> (r: Vec<char>)
    ensures
        r@ == s@,
{
    let mut out: Vec<char> = Vec::new();
    for c in it: s.chars()
        invariant
            it.seq() == s@,
            out@ == it.seq().take(it.index() as int),
    {
        out.push(c);
        assert(out@ =~= it.seq().take(it.index() as int + 1));
    }
    out
}

proof fn lemma_words_last(s: Seq<char>)
    requires
        s.len() > 0,
        !is_ws(s.last()),
    ensures
        words(s).len() > 0,
    decreases s.len(),
{
    if s.len() >= 2 && !is_ws(s[s.len() - 2]) {
        assert(s.drop_last().last() == s[s.len() - 2]);
        lemma_words_last(s.drop_last());
    }
}

proof fn lemma_words_nonempty(s: Seq<char>)
    ensures
        forall|k: int| 0 <= k < words(s).len() ==> (#[trigger] words(s)[k]).len() > 0,
    decreases s.len(),
{
    if s.len() > 0 {
        lemma_words_nonempty(s.drop_last());
        let w = words(s.drop_last());
        if !is_ws(s.last()) && s.len() >= 2 && !is_ws(s[s.len() - 2]) {
            assert(s.drop_last().last() == s[s.len() - 2]);
            lemma_words_last(s.drop_last());
        }
    }
}

proof fn lemma_join_empty(parts: Seq<Seq<char>>, sep: Seq<char>)
    requires
        forall|k: int| 0 <= k < parts.len() ==> (#[trigger] parts[k]).len() > 0,
    ensures
        join(parts, sep).len() == 0 <==> parts.len() == 0,
    decreases parts.len(),
{
    if parts.len() > 1 {
        lemma_join_empty(parts.drop_last(), sep);
        assert(parts.last() == parts[parts.len() - 1]);
    } else if parts.len() == 1 {
        assert(parts[0].len() > 0);
    }
}

proof fn lemma_join_extend_last(parts: Seq<Seq<char>>, sep: Seq<char>, c: char)
    requires
        parts.len() > 0,
    ensures
        join(parts.update(parts.len() - 1, parts.last().push(c)), sep) == join(parts, sep).push(c),
{
    let u = parts.update(parts.len() - 1, parts.last().push(c));
    if parts.len() > 1 {
        assert(u.drop_last() =~= parts.drop_last());
    }
    assert(join(u, sep) =~= join(parts, sep).push(c));
}

proof fn lemma_join_push(parts: Seq<Seq<char>>, sep: Seq<char>, w: Seq<char>)
    ensures
        join(parts.push(w), sep) == (if parts.len() == 0 {
            w
        } else {
            join(parts, sep) + sep + w
        }),
{
    assert(parts.push(w).drop_last() =~= parts);
}

/// The words of `chars`, separated by single spaces.
fn compact_chars(chars: &Vec<char>) -> (r: Vec<char>)
    ensures
        r@ == compact(chars@),
{
    let mut out: Vec<char> = Vec::new();
    let mut pending = false;
    let mut i: usize = 0;
    while i < chars.len()
        invariant
            i <= chars@.len(),
            out@ == compact(chars@.take(i as int)),
            words(chars@.take(i as int)).len() > 0 <==> out@.len() > 0,
            pending == (out@.len() > 0 && i > 0 && is_ws(chars@[i - 1])),
        decreases chars@.len() - i,
    {
        let c = chars[i];
        let ghost p = chars@.take(i as int);
        let ghost q = chars@.take(i as int + 1);
        proof {
            assert(q.drop_last() =~= p);
            assert(q.last() == c);
            if i > 0 {
                assert(q[q.len() - 2] == chars@[i - 1]);
            }
            lemma_words_nonempty(p);
            lemma_join_empty(words(p), seq![' ']);
        }
        if is_whitespace(c) {
            pending = out.len() > 0;
        } else {
            proof {
                if i > 0 && !is_ws(chars@[i - 1]) {
                    assert(p.last() == chars@[i - 1]);
                    lemma_words_last(p);
                    lemma_join_extend_last(words(p), seq![' '], c);
                } else {
                    lemma_join_push(words(p), seq![' '], seq![c]);
                }
            }
            if pending {
                out.push(' ');
            }
            out.push(c);
            proof {
                if !(i > 0 && !is_ws(chars@[i - 1])) {
                    assert(out@ =~= compact(q));
                }
            }
            pending = false;
        }
        i += 1;
    }
    assert(chars@.take(chars@.len() as int) =~= chars@);
    out
}

/// Quotes a snippet of source text for an error message: its words
/// separated by single spaces, at most 48 characters of them followed by
/// `...` when there are more, or `<empty>` when there is no word.
pub fn compact_snippet(snippet: &str) -> (r: String)
    ensures
        r@ == snippet_text(snippet@),
{
    let chars = chars_of(snippet);
    let compacted = compact_chars(&chars);
    let mut out = String::new();
    if compacted.len() == 0 {
        push_str(&mut out, "<empty>");
        return out;
    }
    let n = if compacted.len() > MAX_SNIPPET_CHARS {
        MAX_SNIPPET_CHARS
    } else {
        compacted.len()
    };
    let mut i: usize = 0;
    while i < n
        invariant
            i <= n,
            n <= compacted@.len(),
            out@ == compacted@.take(i as int),
        decreases n - i,
    {
        push_char(&mut out, compacted[i]);
        assert(out@ =~= compacted@.take(i as int + 1));
        i += 1;
    }
    if compacted.len() > MAX_SNIPPET_CHARS {
        push_str(&mut out, "...");
    } else {
        assert(compacted@.take(i as int) =~= compacted@);
    }
    out
}

} // verus!
