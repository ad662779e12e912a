//! Tokenizer for the OpenEPL IR text encoding (`.oir`).
//!
//! Line structure is significant only in that statements end at a newline; the
//! lexer emits explicit `Newline` tokens and the parser consumes them. Blank
//! lines and `# ...` comments are skipped here.

use vstd::prelude::*;
use vstd::string::StringSliceAdditionalSpecFns;
use vstd::utf8::{decode_utf8, decode_utf8_encode_utf8, encode_utf8, valid_utf8};
use crate::text::{lemma_encode_ascii_char, lemma_encode_utf8_append};
use crate::text::{byte_char, byte_char_debug, push_byte_char_debug, push_char, push_dec, push_str, str_eq, text, text_from_utf8};

verus! {

#[derive(Debug, Clone, PartialEq)]
pub enum Tok {
    // Keywords
    Module,
    Sub,
    End,
    Let,
    Var,
    Call,
    If,
    Else,
    While,
    For,
    Break,
    Continue,
    And,
    Or,
    Not,
    /// `bnot` — bitwise complement. Reserved, exactly as `not` is.
    BNot,
    True,
    False,
    Use,
    Form,
    On,
    Return,
    // Literals / identifiers
    Ident(String),
    Int(i64),
    /// A hex or binary literal, kept as the raw bit pattern.
    Bits(u64),
    /// A decimal literal with a fractional part, held as its spelling with
    /// the grouping underscores removed (`3.14`, `1000.5`): the value is the
    /// nearest double to that decimal.
    Float(String),
    Str(String),
    /// A raw literal, `r"..."`: its text exactly as written, with no escapes
    /// and no interpolation holes.
    RawStr(String),
    // Punctuation / operators
    LParen,
    RParen,
    LBracket,
    RBracket,
    LBrace,
    RBrace,
    Comma,
    Colon,
    Dot,
    /// `..` — the range operator.
    DotDot,
    Eq,
    Plus,
    Minus,
    Star,
    Slash,
    Percent,
    PlusEq,
    MinusEq,
    StarEq,
    SlashEq,
    AmpEq,
    Lt,
    Le,
    Gt,
    Ge,
    Ne,
    Newline,
    Eof,
}

#[derive(Debug, Clone, PartialEq)]
pub struct Spanned {
    pub tok: Tok,
    pub line: usize,
    /// 1-based column of the token's first byte.
    pub col: usize,
    /// One past the token's last byte.
    pub end_col: usize,
}

#[derive(Debug, Clone, PartialEq)]
pub struct LexError {
    pub line: usize,
    pub msg: String,
}

/// A byte that may begin an identifier.
pub open spec fn ident_start(c: u8) -> bool {
    c == 95 || (65 <= c <= 90) || (97 <= c <= 122)
}

/// A byte that may continue an identifier.
pub open spec fn ident_cont(c: u8) -> bool {
    ident_start(c) || (48 <= c <= 57)
}

pub open spec fn ident_start_char(c: char) -> bool {
    ident_start_code(c as u32)
}

pub open spec fn ident_cont_char(c: char) -> bool {
    ident_cont_code(c as u32)
}

/// A character code that may begin an identifier: `_`, `A`..`Z`, `a`..`z`.
pub open spec fn ident_start_code(x: u32) -> bool {
    x == 95 || (65 <= x <= 90) || (97 <= x <= 122)
}

/// A character code that may continue an identifier: those, and `0`..`9`.
pub open spec fn ident_cont_code(x: u32) -> bool {
    ident_start_code(x) || (48 <= x <= 57)
}

/// The reserved words and the tokens they are.
pub open spec fn spec_keyword(w: Seq<char>) -> Option<Tok> {
    if w == "module"@ { Some(Tok::Module) }
    else if w == "sub"@ { Some(Tok::Sub) }
    else if w == "end"@ { Some(Tok::End) }
    else if w == "let"@ { Some(Tok::Let) }
    else if w == "var"@ { Some(Tok::Var) }
    else if w == "if"@ { Some(Tok::If) }
    else if w == "else"@ { Some(Tok::Else) }
    else if w == "while"@ { Some(Tok::While) }
    else if w == "for"@ { Some(Tok::For) }
    else if w == "break"@ { Some(Tok::Break) }
    else if w == "continue"@ { Some(Tok::Continue) }
    else if w == "and"@ { Some(Tok::And) }
    else if w == "or"@ { Some(Tok::Or) }
    else if w == "not"@ { Some(Tok::Not) }
    else if w == "bnot"@ { Some(Tok::BNot) }
    else if w == "true"@ { Some(Tok::True) }
    else if w == "false"@ { Some(Tok::False) }
    else if w == "call"@ { Some(Tok::Call) }
    else if w == "use"@ { Some(Tok::Use) }
    else if w == "form"@ { Some(Tok::Form) }
    else if w == "on"@ { Some(Tok::On) }
    else if w == "return"@ { Some(Tok::Return) }
    else { None }
}

/// An identifier's spelling: a letter or `_`, then letters, digits and `_`,
/// and not a reserved word.
pub open spec fn is_name(w: Seq<char>) -> bool {
    &&& w.len() > 0
    &&& ident_start_char(w[0])
    &&& forall|k: int| 0 <= k < w.len() ==> ident_cont_char(#[trigger] w[k])
    &&& spec_keyword(w) is None
}

/// No two `Newline` tokens in a row, and none first: blank lines collapse.
pub open spec fn newlines_collapsed(t: Seq<Spanned>) -> bool {
    &&& (t.len() > 0 ==> !(t[0].tok is Newline))
    &&& forall|k: int| 0 <= k < t.len() - 1 ==> !(#[trigger] t[k].tok is Newline && t[k + 1].tok is Newline)
}

/// How many line breaks `b[..i]` holds.
pub open spec fn newlines_in(b: Seq<u8>, i: int) -> int
    decreases i,
{
    if i <= 0 {
        0
    } else {
        newlines_in(b, i - 1) + if b[i - 1] == 10u8 { 1int } else { 0int }
    }
}

/// Where the line that holds byte `i` begins: just past the last line
/// break before `i`, or 0.
pub open spec fn line_begin_at(b: Seq<u8>, i: int) -> int
    decreases i,
{
    if i <= 0 {
        0
    } else if b[i - 1] == 10u8 {
        i
    } else {
        line_begin_at(b, i - 1)
    }
}

/// No line break among `b[i..j]`.
pub open spec fn no_newline(b: Seq<u8>, i: int, j: int) -> bool {
    forall|k: int| i <= k < j ==> #[trigger] b[k] != 10u8
}

/// Bytes with no line break between them are on the same line.
pub proof fn lemma_same_line(b: Seq<u8>, i: int, j: int)
    requires
        0 <= i <= j <= b.len(),
        no_newline(b, i, j),
    ensures
        newlines_in(b, j) == newlines_in(b, i),
        line_begin_at(b, j) == line_begin_at(b, i),
    decreases j - i,
{
    if i < j {
        lemma_same_line(b, i, j - 1);
        assert(b[j - 1] != 10u8);
    }
}

/// Token `t` begins at byte `p` of `b`: its line and column are that byte's.
pub open spec fn starts_at(b: Seq<u8>, t: Spanned, p: int) -> bool {
    &&& 0 <= p <= b.len()
    &&& t.line == newlines_in(b, p) + 1
    &&& t.col == p - line_begin_at(b, p) + 1
}

/// The bytes read as characters, one per byte.
pub open spec fn ascii_chars(b: Seq<u8>) -> Seq<char> {
    b.map_values(|x: u8| x as char)
}

/// The token a word spells: its reserved word, or an identifier of it.
pub open spec fn word_token(t: Tok, w: Seq<char>) -> bool {
    match spec_keyword(w) {
        Some(k) => t == k,
        None => match t {
            Tok::Ident(x) => x@ == w,
            _ => false,
        },
    }
}

/// `b[p..q]` is a whole word: a letter or `_`, then letters, digits and
/// `_`, up to a byte that continues none.
pub open spec fn word_run(b: Seq<u8>, p: int, q: int) -> bool {
    &&& 0 <= p < q <= b.len()
    &&& ident_start(b[p])
    &&& forall|k: int| p <= k < q ==> ident_cont(#[trigger] b[k])
    &&& (q == b.len() || !ident_cont(b[q]))
}

/// Token `t`, beginning at byte `p`, is what the bytes there spell: the end
/// of the input; a line break; an operator or bracket (with its width); a
/// word, reserved or not, where no raw literal begins (with its width); a
/// bit pattern with the value its digits spell (with its width); a number
/// where no bit pattern begins; or a text literal.
pub open spec fn token_reads(b: Seq<u8>, t: Spanned, p: int) -> bool {
    match t.tok {
        Tok::Eof => p == b.len(),
        Tok::Newline => p < b.len() && b[p] == 10u8 && t.end_col == t.col + 1,
        Tok::Int(v) => p < b.len() && 48 <= b[p] <= 57 && !bits_at(b, p)
            && number_end(b, p) == Some((false, p + (t.end_col - t.col))) && v == dec_value(b, p, p + (t.end_col - t.col)),
        Tok::Float(x) => p < b.len() && 48 <= b[p] <= 57 && !bits_at(b, p)
            && number_end(b, p) == Some((true, p + (t.end_col - t.col))) && x@ == digits_text(b, p, p + (t.end_col - t.col)),
        Tok::Bits(v) => p + 1 < b.len() && b[p] == 48u8
            && (b[p + 1] == 120u8 || b[p + 1] == 88u8 || b[p + 1] == 98u8 || b[p + 1] == 66u8)
            && bits_token(b, p) == Some((v, p + (t.end_col - t.col))),
        Tok::Str(x) => p < b.len() && b[p] == 34u8 && (block_at(b, p)
            || string_body(b, p + 1) == Some((x@, p + (t.end_col - t.col)))),
        Tok::RawStr(x) => p + 1 < b.len() && b[p] == 114u8 && b[p + 1] == 34u8
            && raw_body(b, p + 2) == Some((x@, p + (t.end_col - t.col))),
        _ => {
            ||| (p < b.len() && punct_at(b, p) == Some((t.tok, t.end_col - t.col)))
            ||| !raw_at(b, p) && exists|q: int| #[trigger] word_run(b, p, q) && word_token(t.tok, ascii_chars(b.subrange(p, q)))
                && t.end_col == t.col + (q - p)
        },
    }
}

/// Byte `j` of `b` lies in a comment that begins at or after `from`: a `#`
/// with no line break between it and `j`.
pub open spec fn in_comment(b: Seq<u8>, from: int, j: int) -> bool {
    exists|c: int| from <= c <= j && #[trigger] b[c] == 35u8 && no_newline(b, c, j + 1)
}

/// `b[from..to]` holds nothing a token is read from: spaces, tabs, carriage
/// returns, comments, and line breaks where `breaks` says they collapse
/// into the line break already read.
#[verifier::opaque]
pub open spec fn blank_gap(b: Seq<u8>, from: int, to: int, breaks: bool) -> bool {
    &&& 0 <= from <= to <= b.len()
    &&& forall|j: int| from <= j < to ==> (#[trigger] b[j] == 32u8 || b[j] == 9u8 || b[j] == 13u8
        || (b[j] == 10u8 && breaks) || in_comment(b, from, j))
}

/// A comment begun in `b[from..p]` is still open at `p`: a `#` there with no
/// line break between it and `p`.
pub open spec fn open_comment(b: Seq<u8>, from: int, p: int) -> bool {
    exists|c: int| from <= c < p && #[trigger] b[c] == 35u8 && no_newline(b, c, p)
}

/// Byte `p` lies in no comment begun after `from`, unless it is the line
/// break that ends one.
pub open spec fn out_of_comment(b: Seq<u8>, from: int, p: int) -> bool {
    p < b.len() && b[p] != 10u8 ==> !open_comment(b, from, p)
}

/// Line breaks before a token collapse when nothing was read before it or
/// what was read last is a line break.
pub open spec fn breaks_collapse(t: Seq<Spanned>, k: int) -> bool {
    k == 0 || t[k - 1].tok is Newline
}

/// Every token is tied to the bytes it was read from, and nothing else is
/// read: each begins at a byte whose line and column it carries and is what
/// the bytes there spell, between one token's end and the next one's start
/// there is only blank space, and no token starts inside a comment.
pub open spec fn read_from(b: Seq<u8>, t: Seq<Spanned>) -> bool {
    exists|ps: Seq<int>, qs: Seq<int>| #[trigger] read_at(b, t, ps, qs)
}

/// A block literal's opening `"""` begins at byte `p`.
pub open spec fn block_at(b: Seq<u8>, p: int) -> bool {
    0 <= p && p + 2 < b.len() && b[p] == 34u8 && b[p + 1] == 34u8 && b[p + 2] == 34u8
}

/// `ps` and `qs` hold where each token of `t` begins and ends in `b`: each
/// is read there, after blank space from the end of the one before, and
/// starts in no comment.
#[verifier::opaque]
pub open spec fn read_at(b: Seq<u8>, t: Seq<Spanned>, ps: Seq<int>, qs: Seq<int>) -> bool {
    &&& ps.len() == t.len() && qs.len() == t.len()
    &&& forall|k: int| 0 <= k < t.len() ==> token_at(b, #[trigger] t[k], ps[k], qs[k])
        && blank_gap(b, if k == 0 { 0 } else { qs[k - 1] }, ps[k], breaks_collapse(t, k))
        && out_of_comment(b, if k == 0 { 0 } else { qs[k - 1] }, ps[k])
}

/// Token `x` is read from `b[p..q]`: it begins at `p`, carries that place's
/// line and column, and is what the bytes spell; it spans as many bytes as
/// columns, but a block literal, which holds the text its body spells and
/// spans its own columns where it is on one line, three otherwise.
#[verifier::opaque]
pub open spec fn token_at(b: Seq<u8>, x: Spanned, p: int, q: int) -> bool {
    &&& starts_at(b, x, p)
    &&& token_reads(b, x, p)
    &&& p <= q <= b.len()
    &&& (!block_at(b, p) ==> q == p + (x.end_col - x.col))
    &&& (block_at(b, p) ==> (x.tok is Str && block_text(b, p + 3) == Some((x.tok->Str_0@, q))))
    &&& (block_at(b, p) ==> x.end_col == x.col + (if newlines_in(b, q) == newlines_in(b, p) { q - p } else { 3 }))
}

/// A token read at `b[p..q]` as `token_at` says.
proof fn lemma_token_at_intro(b: Seq<u8>, x: Spanned, p: int, q: int)
    requires
        starts_at(b, x, p),
        token_reads(b, x, p),
        p <= q <= b.len(),
        !block_at(b, p) ==> q == p + (x.end_col - x.col),
        block_at(b, p) ==> (x.tok is Str && block_text(b, p + 3) == Some((x.tok->Str_0@, q))),
        block_at(b, p) ==> x.end_col == x.col + (if newlines_in(b, q) == newlines_in(b, p) { q - p } else { 3 }),
    ensures
        token_at(b, x, p, q),
{
    reveal(token_at);
}

/// One more token read at bytes `p..q`, after blank space from the last
/// token's end, keeps every token tied to its bytes.
#[verifier::spinoff_prover]
#[verifier::rlimit(40)]
proof fn lemma_read_at_push(b: Seq<u8>, t: Seq<Spanned>, ps: Seq<int>, qs: Seq<int>, x: Spanned, p: int, q: int)
    requires
        read_at(b, t, ps, qs),
        token_at(b, x, p, q),
        blank_gap(b, if t.len() == 0 { 0 } else { qs.last() }, p, t.len() == 0 || t.last().tok is Newline),
        out_of_comment(b, if t.len() == 0 { 0 } else { qs.last() }, p),
    ensures
        read_at(b, t.push(x), ps.push(p), qs.push(q)),
{
    reveal(read_at);
    let t2 = t.push(x);
    let ps2 = ps.push(p);
    let qs2 = qs.push(q);
    assert forall|k: int| 0 <= k < t2.len() implies token_at(b, #[trigger] t2[k], ps2[k], qs2[k])
        && blank_gap(b, if k == 0 { 0 } else { qs2[k - 1] }, ps2[k], breaks_collapse(t2, k))
        && out_of_comment(b, if k == 0 { 0 } else { qs2[k - 1] }, ps2[k]) by {
        if k < t.len() {
            assert(t2[k] == t[k] && ps2[k] == ps[k] && qs2[k] == qs[k]);
            if k > 0 {
                assert(t2[k - 1] == t[k - 1] && qs2[k - 1] == qs[k - 1]);
            }
        } else if k > 0 {
            assert(t2[k - 1] == t.last() && qs2[k - 1] == qs.last());
        }
    }
}

/// A blank byte, or a byte of a comment begun in the gap, extends the gap.
proof fn lemma_gap_grow(b: Seq<u8>, from: int, to: int, breaks: bool)
    requires
        blank_gap(b, from, to, breaks),
        to < b.len(),
        b[to] == 32u8 || b[to] == 9u8 || b[to] == 13u8 || (b[to] == 10u8 && breaks) || in_comment(b, from, to),
    ensures
        blank_gap(b, from, to + 1, breaks),
{
    reveal(blank_gap);
    assert forall|j: int| from <= j < to + 1 implies (#[trigger] b[j] == 32u8 || b[j] == 9u8 || b[j] == 13u8
        || (b[j] == 10u8 && breaks) || in_comment(b, from, j)) by {
        if j < to {
        }
    }
}

/// Nothing lies between a byte and itself.
proof fn lemma_gap_empty(b: Seq<u8>, at: int, breaks: bool)
    requires
        0 <= at <= b.len(),
    ensures
        blank_gap(b, at, at, breaks),
{
    reveal(blank_gap);
}

/// A byte after a `#` of the gap, with no line break between them, extends
/// the gap.
proof fn lemma_gap_comment(b: Seq<u8>, from: int, c: int, to: int, breaks: bool)
    requires
        blank_gap(b, from, to, breaks),
        from <= c <= to < b.len(),
        b[c] == 35u8,
        no_newline(b, c, to + 1),
    ensures
        blank_gap(b, from, to + 1, breaks),
{
    assert(in_comment(b, from, to));
    lemma_gap_grow(b, from, to, breaks);
}

/// Token `a` ends before token `b` begins: on an earlier line, or on the
/// same line no later than `b`'s first column.
pub open spec fn ends_before(a: Spanned, b: Spanned) -> bool {
    a.line < b.line || (a.line == b.line && a.end_col <= b.col)
}

/// Each token ends before the next begins, and every column counts from 1:
/// the tokens' positions go strictly forward through the source.
pub open spec fn in_source_order(t: Seq<Spanned>) -> bool {
    &&& forall|k: int| 0 <= k < t.len() - 1 ==> ends_before(#[trigger] t[k], t[k + 1])
    &&& forall|k: int| 0 <= k < t.len() ==> #[trigger] t[k].col >= 1
}

/// The shape every token stream the lexer hands out has.
pub open spec fn well_lexed(t: Seq<Spanned>) -> bool {
    &&& t.len() >= 1
    &&& t.last().tok is Eof
    &&& forall|k: int| 0 <= k < t.len() - 1 ==> !(#[trigger] t[k].tok is Eof)
    &&& newlines_collapsed(t)
    &&& forall|j: int, k: int| 0 <= j <= k < t.len() ==> #[trigger] t[j].line <= #[trigger] t[k].line
    &&& forall|k: int| 0 <= k < t.len() ==> #[trigger] t[k].line >= 1
    &&& forall|k: int| 0 <= k < t.len() - 1 ==> #[trigger] t[k].col < t[k].end_col
    &&& forall|k: int| 0 <= k < t.len() ==> (#[trigger] t[k].tok matches Tok::Ident(w) ==> is_name(w@))
    &&& in_source_order(t)
}

/// Every text literal's UTF-8 encoding is shorter than `n` bytes — the
/// length of the source it was read from.
pub open spec fn strs_within(t: Seq<Spanned>, n: nat) -> bool {
    forall|k: int| 0 <= k < t.len() ==> (#[trigger] t[k].tok matches Tok::Str(s) ==> encode_utf8(s@).len() < n)
}

/// What a partly built token stream looks like while the lexer runs.
pub open spec fn lexed_so_far(t: Seq<Spanned>, line: usize) -> bool {
    &&& forall|k: int| 0 <= k < t.len() ==> !(#[trigger] t[k].tok is Eof)
    &&& newlines_collapsed(t)
    &&& forall|j: int, k: int| 0 <= j <= k < t.len() ==> #[trigger] t[j].line <= #[trigger] t[k].line
    &&& forall|k: int| 0 <= k < t.len() ==> 1 <= #[trigger] t[k].line <= line
    &&& forall|k: int| 0 <= k < t.len() ==> #[trigger] t[k].col < t[k].end_col
    &&& forall|k: int| 0 <= k < t.len() ==> (#[trigger] t[k].tok matches Tok::Ident(w) ==> is_name(w@))
    &&& in_source_order(t)
}

fn keyword(w: &str) -> (r: Option<Tok>)
    ensures
        r == spec_keyword(w@),
{
    if str_eq(w, "module") { Some(Tok::Module) }
    else if str_eq(w, "sub") { Some(Tok::Sub) }
    else if str_eq(w, "end") { Some(Tok::End) }
    else if str_eq(w, "let") { Some(Tok::Let) }
    else if str_eq(w, "var") { Some(Tok::Var) }
    else if str_eq(w, "if") { Some(Tok::If) }
    else if str_eq(w, "else") { Some(Tok::Else) }
    else if str_eq(w, "while") { Some(Tok::While) }
    else if str_eq(w, "for") { Some(Tok::For) }
    else if str_eq(w, "break") { Some(Tok::Break) }
    else if str_eq(w, "continue") { Some(Tok::Continue) }
    else if str_eq(w, "and") { Some(Tok::And) }
    else if str_eq(w, "or") { Some(Tok::Or) }
    else if str_eq(w, "not") { Some(Tok::Not) }
    else if str_eq(w, "bnot") { Some(Tok::BNot) }
    else if str_eq(w, "true") { Some(Tok::True) }
    else if str_eq(w, "false") { Some(Tok::False) }
    else if str_eq(w, "call") { Some(Tok::Call) }
    else if str_eq(w, "use") { Some(Tok::Use) }
    else if str_eq(w, "form") { Some(Tok::Form) }
    else if str_eq(w, "on") { Some(Tok::On) }
    else if str_eq(w, "return") { Some(Tok::Return) }
    else { None }
}

fn is_ident_start(c: u8) -> (r: bool)
    ensures
        r == ident_start(c),
{
    c == 95u8 || (65u8 <= c && c <= 90u8) || (97u8 <= c && c <= 122u8)
}

fn is_ident_cont(c: u8) -> (r: bool)
    ensures
        r == ident_cont(c),
{
    is_ident_start(c) || (48u8 <= c && c <= 57u8)
}

fn is_digit(c: u8) -> (r: bool)
    ensures
        r == (48 <= c <= 57),
{
    48u8 <= c && c <= 57u8
}

fn lex_error(line: usize, msg: &str) -> (e: LexError)
    ensures
        e.line == line,
        e.msg@ == msg@,
{
    LexError { line, msg: text(msg) }
}

/// Append the bytes `b[from..to]` as characters, one per byte (every byte in
/// the range is ASCII where this is used).
fn push_ascii(s: &mut String, b: &[u8], from: usize, to: usize)
    requires
        from <= to <= b@.len(),
    ensures
        final(s)@.len() == old(s)@.len() + (to - from),
        forall|k: int| 0 <= k < old(s)@.len() ==> final(s)@[k] == old(s)@[k],
        forall|k: int| from <= k < to ==> (#[trigger] final(s)@[old(s)@.len() + k - from]) as u32 == b@[k] as u32,
        final(s)@ == old(s)@ + ascii_chars(b@.subrange(from as int, to as int)),
{
    let mut i = from;
    while i < to
        invariant
            from <= i <= to <= b@.len(),
            s@.len() == old(s)@.len() + (i - from),
            forall|k: int| 0 <= k < old(s)@.len() ==> s@[k] == old(s)@[k],
            forall|k: int| from <= k < i ==> (#[trigger] s@[old(s)@.len() + k - from]) as u32 == b@[k] as u32,
            s@ == old(s)@ + ascii_chars(b@.subrange(from as int, i as int)),
        decreases to - i,
    {
        let ghost before = s@;
        let c = byte_char(b[i]);
        push_char(s, c);
        proof {
            vstd::utf8::char_u32_cast(c, b@[i as int] as u32);
            assert(ascii_chars(b@.subrange(from as int, i + 1)) =~= ascii_chars(b@.subrange(from as int, i as int)).push(b@[i as int] as char));
            assert(s@ =~= old(s)@ + ascii_chars(b@.subrange(from as int, i + 1)));
        }
        i = i + 1;
    }
}

/// Where a run of decimal digits and grouping underscores from `i` ends,
/// or `None` where an underscore in it is not followed by a digit.
pub open spec fn dec_run_end(b: Seq<u8>, i: int) -> Option<int>
    decreases b.len() - i,
{
    if i < 0 || i >= b.len() {
        Some(i)
    } else if 48 <= b[i] <= 57 {
        dec_run_end(b, i + 1)
    } else if b[i] == 95 {
        if i + 1 < b.len() && 48 <= b[i + 1] <= 57 { dec_run_end(b, i + 1) } else { None }
    } else {
        Some(i)
    }
}

/// Consume a run of decimal digits with optional grouping underscores,
/// starting at a digit. An underscore must sit between two digits.
fn scan_dec_digits(bytes: &[u8], i: &mut usize, n: usize, line: usize) -> (r: Result<(), LexError>)
    requires
        n == bytes@.len(),
        *old(i) <= n,
    ensures
        *old(i) <= *final(i) <= n,
        r is Err ==> r->Err_0.line == line,
        r is Ok <==> dec_run_end(bytes@, *old(i) as int) is Some,
        r is Ok ==> dec_run_end(bytes@, *old(i) as int) == Some(*final(i) as int),
        r is Err ==> r->Err_0.msg@ == "an underscore in a number must sit between two digits"@,
        no_newline(bytes@, *old(i) as int, *final(i) as int),
{
    while *i < n
        invariant
            n == bytes@.len(),
            *old(i) <= *i <= n,
            dec_run_end(bytes@, *old(i) as int) == dec_run_end(bytes@, *i as int),
            no_newline(bytes@, *old(i) as int, *i as int),
        ensures
            *old(i) <= *i <= n,
            dec_run_end(bytes@, *old(i) as int) == Some(*i as int),
            no_newline(bytes@, *old(i) as int, *i as int),
        decreases n - *i,
    {
        if is_digit(bytes[*i]) {
            *i = *i + 1;
        } else if bytes[*i] == 95u8 {
            if *i + 1 < n && is_digit(bytes[*i + 1]) {
                *i = *i + 1;
            } else {
                assert(dec_run_end(bytes@, *i as int) is None);
                return Err(lex_error(line, "an underscore in a number must sit between two digits"));
            }
        } else {
            assert(dec_run_end(bytes@, *i as int) == Some(*i as int));
            break;
        }
    }
    Ok(())
}

/// The value of a hexadecimal or binary digit, or `None` when `c` is not one
/// in `base` (the same answer as `char::to_digit`).
fn digit_value(c: u8, base: u32) -> (r: Option<u32>)
    requires
        base == 16 || base == 2,
    ensures
        r matches Some(d) ==> d < base,
        r == (if base == 2 {
            if c == 48 { Some(0u32) } else if c == 49 { Some(1u32) } else { None }
        } else if 48 <= c <= 57 {
            Some((c - 48) as u32)
        } else if 97 <= c <= 102 {
            Some((c - 97 + 10) as u32)
        } else if 65 <= c <= 70 {
            Some((c - 65 + 10) as u32)
        } else {
            None
        }),
{
    if base == 2 {
        if c == 48u8 { Some(0) } else if c == 49u8 { Some(1) } else { None }
    } else if 48u8 <= c && c <= 57u8 {
        Some((c - 48u8) as u32)
    } else if 97u8 <= c && c <= 102u8 {
        Some((c - 97u8) as u32 + 10)
    } else if 65u8 <= c && c <= 70u8 {
        Some((c - 65u8) as u32 + 10)
    } else {
        None
    }
}

/// Where the run of identifier bytes from `i` ends.
pub open spec fn ident_run_end(b: Seq<u8>, i: int) -> int
    decreases b.len() - i,
{
    if i < 0 || i >= b.len() || !ident_cont(b[i]) { i } else { ident_run_end(b, i + 1) }
}

/// The digit `c` stands for in `base` (2 or 16), if it is one.
pub open spec fn pattern_digit(c: u8, base: int) -> Option<int> {
    if base == 2 {
        if c == 48 { Some(0) } else if c == 49 { Some(1) } else { None }
    } else if 48 <= c <= 57 {
        Some(c - 48)
    } else if 97 <= c <= 102 {
        Some(c - 97 + 10)
    } else if 65 <= c <= 70 {
        Some(c - 65 + 10)
    } else {
        None
    }
}

/// The number `b[from..to]` spells in `base`, grouping underscores skipped;
/// `None` where a byte of it is neither a digit nor an underscore.
pub open spec fn pattern_value(b: Seq<u8>, from: int, to: int, base: int) -> Option<int>
    decreases to - from,
{
    if to <= from {
        Some(0)
    } else {
        match pattern_value(b, from, to - 1, base) {
            None => None,
            Some(v) => if b[to - 1] == 95u8 {
                Some(v)
            } else {
                match pattern_digit(b[to - 1], base) {
                    Some(d) => Some(v * base + d),
                    None => None,
                }
            },
        }
    }
}

/// Some byte of `b[from..to]` is not an underscore.
pub open spec fn has_digit(b: Seq<u8>, from: int, to: int) -> bool {
    exists|k: int| from <= k < to && #[trigger] b[k] != 95u8
}

/// The bit pattern at `p` (`0x` or `0b`, then the word that follows): its
/// value and the index just past it; `None` where the word holds a byte
/// that is no digit of the base, no digit at all, or a value that needs
/// more than 64 bits.
pub open spec fn bits_token(b: Seq<u8>, p: int) -> Option<(u64, int)> {
    let base: int = if b[p + 1] == 120u8 || b[p + 1] == 88u8 { 16 } else { 2 };
    let j = ident_run_end(b, p + 2);
    match pattern_value(b, p + 2, j, base) {
        Some(v) => if v <= u64::MAX && has_digit(b, p + 2, j) { Some((v as u64, j)) } else { None },
        None => None,
    }
}

/// The value a pattern's prefix spells never exceeds the whole's.
proof fn lemma_pattern_grows(b: Seq<u8>, from: int, mid: int, to: int, base: int)
    requires
        from <= mid <= to,
        base == 2 || base == 16,
        pattern_value(b, from, to, base) is Some,
    ensures
        pattern_value(b, from, mid, base) is Some,
        pattern_value(b, from, mid, base)->0 <= pattern_value(b, from, to, base)->0,
        pattern_value(b, from, mid, base)->0 >= 0,
    decreases to - mid,
{
    if mid < to {
        lemma_pattern_grows(b, from, mid, to - 1, base);
        lemma_pattern_nonneg(b, from, to - 1, base);
    } else {
        lemma_pattern_nonneg(b, from, to, base);
    }
}

/// A pattern's value is never negative.
proof fn lemma_pattern_nonneg(b: Seq<u8>, from: int, to: int, base: int)
    requires
        base == 2 || base == 16,
        pattern_value(b, from, to, base) is Some,
    ensures
        pattern_value(b, from, to, base)->0 >= 0,
    decreases to - from,
{
    if to > from {
        lemma_pattern_nonneg(b, from, to - 1, base);
    }
}

/// A byte that is no digit inside the word makes the pattern no number.
proof fn lemma_bits_bad(b: Seq<u8>, p: int, i: int, base: int)
    requires
        0 <= p,
        p + 2 <= i < b.len(),
        base == 2 || base == 16,
        base == (if b[p + 1] == 120u8 || b[p + 1] == 88u8 { 16int } else { 2int }),
        ident_cont(b[i]),
        b[i] != 95u8,
        pattern_digit(b[i], base) is None,
        ident_run_end(b, i) == ident_run_end(b, p + 2),
    ensures
        bits_token(b, p) is None,
{
    let j = ident_run_end(b, p + 2);
    lemma_run_end_past(b, i);
    assert(pattern_value(b, p + 2, i + 1, base) is None);
    if pattern_value(b, p + 2, j, base) is Some {
        lemma_pattern_grows(b, p + 2, i + 1, j, base);
    }
}

/// The run of identifier bytes holding `i` ends past it.
proof fn lemma_run_end_past(b: Seq<u8>, i: int)
    requires
        0 <= i < b.len(),
        ident_cont(b[i]),
    ensures
        ident_run_end(b, i) > i,
        ident_run_end(b, i) <= b.len(),
    decreases b.len() - i,
{
    assert(ident_run_end(b, i) == ident_run_end(b, i + 1));
    if i + 1 < b.len() && ident_cont(b[i + 1]) {
        lemma_run_end_past(b, i + 1);
    } else {
        assert(ident_run_end(b, i + 1) == i + 1);
    }
}

/// A prefix too large for 64 bits makes the whole pattern so.
proof fn lemma_bits_big(b: Seq<u8>, p: int, k: int, base: int)
    requires
        0 <= p,
        p + 2 < k <= b.len(),
        base == 2 || base == 16,
        base == (if b[p + 1] == 120u8 || b[p + 1] == 88u8 { 16int } else { 2int }),
        ident_cont(b[k - 1]),
        ident_run_end(b, k - 1) == ident_run_end(b, p + 2),
        pattern_value(b, p + 2, k, base) is Some,
        pattern_value(b, p + 2, k, base)->0 > u64::MAX,
    ensures
        bits_token(b, p) is None,
{
    let j = ident_run_end(b, p + 2);
    lemma_run_end_past(b, k - 1);
    if pattern_value(b, p + 2, j, base) is Some {
        lemma_pattern_grows(b, p + 2, k, j, base);
    }
}

/// What the bit pattern at `p` is refused for, reading its word from byte
/// `i` on: the first byte that is no digit of the base (shown, with the
/// pattern up to it), the first digit past which the value needs more than
/// 64 bits (with the pattern up to it), or, at the word's end, that it had
/// no digit after `0x` or `0b`.
pub open spec fn bits_fault_from(b: Seq<u8>, p: int, i: int, base: int) -> Seq<char>
    decreases b.len() - i,
{
    if 0 <= i < b.len() && ident_cont(b[i]) {
        if b[i] == 95u8 {
            bits_fault_from(b, p, i + 1, base)
        } else {
            match pattern_digit(b[i], base) {
                None => "`"@.push((b[i] as u32) as char) + "` is not a "@
                    + (if base == 16 { "hexadecimal"@ } else { "binary"@ }) + " digit in `"@
                    + ascii_chars(b.subrange(p, i + 1)) + "`"@,
                Some(_) => if pattern_value(b, p + 2, i + 1, base) is Some && pattern_value(b, p + 2, i + 1, base)->0 > u64::MAX {
                    "the literal `"@ + ascii_chars(b.subrange(p, i + 1)) + "` needs more than 64 bits"@
                } else {
                    bits_fault_from(b, p, i + 1, base)
                },
            }
        }
    } else {
        "`"@ + ascii_chars(b.subrange(p, p + 2)) + "` has no digits after it"@
    }
}

/// What the bit pattern at `p` is refused for.
pub open spec fn bits_fault(b: Seq<u8>, p: int) -> Seq<char> {
    bits_fault_from(b, p, p + 2, if b[p + 1] == 120u8 || b[p + 1] == 88u8 { 16 } else { 2 })
}

/// A bit pattern at `i0` (`0x` or `0b`, then digits and `_`): exactly the
/// token and end `bits_token` gives, and an error where it gives none.
fn lex_bits(bytes: &[u8], i0: usize, line: usize) -> (r: Result<(Tok, usize), LexError>)
    requires
        i0 + 1 < bytes@.len(),
    ensures
        r matches Ok((t, j)) ==> i0 + 2 <= j <= bytes@.len() && t is Bits && no_newline(bytes@, i0 + 2, j as int)
            && bits_token(bytes@, i0 as int) == Some((t->Bits_0, j as int)),
        r is Err <==> bits_token(bytes@, i0 as int) is None,
        r is Err ==> r->Err_0.line == line,
        r matches Err(e) ==> e.msg@ == bits_fault(bytes@, i0 as int),
{
    let n = bytes.len();
    let base: u32 = if bytes[i0 + 1] == 120u8 || bytes[i0 + 1] == 88u8 { 16 } else { 2 };
    let start = i0;
    let mut i = i0 + 2;
    let digits_start = i;
    let mut value: u64 = 0;
    let mut digits: usize = 0;
    let ghost b = bytes@;
    while i < n && (bytes[i] == 95u8 || is_ident_cont(bytes[i]) && bytes[i] != 95u8)
        invariant
            start + 2 <= i <= n == bytes@.len(),
            b == bytes@,
            start == i0,
            digits_start == start + 2,
            base == 16 || base == 2,
            base == (if b[start + 1] == 120u8 || b[start + 1] == 88u8 { 16u32 } else { 2u32 }),
            digits <= i,
            no_newline(bytes@, start + 2, i as int),
            ident_run_end(b, i as int) == ident_run_end(b, start + 2),
            pattern_value(b, start + 2, i as int, base as int) == Some(value as int),
            (digits > 0) == has_digit(b, start + 2, i as int),
            bits_fault(b, start as int) == bits_fault_from(b, start as int, i as int, base as int),
        decreases n - i,
    {
        if bytes[i] == 95u8 {
            proof {
                assert(has_digit(b, start + 2, i + 1) == has_digit(b, start + 2, i as int));
            }
            i = i + 1;
            continue;
        }
        let d = match digit_value(bytes[i], base) {
            Some(d) => d,
            None => {
                proof {
                    lemma_bits_bad(b, start as int, i as int, base as int);
                    assert(bits_token(bytes@, i0 as int) is None);
                }
                let mut msg = text("`");
                let c = byte_char(bytes[i]);
                push_char(&mut msg, c);
                push_str(&mut msg, "` is not a ");
                let word = if base == 16 { "hexadecimal" } else { "binary" };
                push_str(&mut msg, word);
                push_str(&mut msg, " digit in `");
                push_ascii(&mut msg, bytes, start, i + 1);
                push_char(&mut msg, '`');
                proof {
                    reveal_strlit("`");
                    vstd::utf8::char_u32_cast(c, bytes@[i as int] as u32);
                    assert(word@ == (if base == 16 { "hexadecimal"@ } else { "binary"@ }));
                    assert(msg@ =~= bits_fault_from(b, start as int, i as int, base as int));
                }
                return Err(LexError { line, msg });
            },
        };
        let next = match value.checked_mul(base as u64) {
            Some(v) => v.checked_add(d as u64),
            None => None,
        };
        match next {
            Some(v) => value = v,
            None => {
                proof {
                    assert(pattern_value(b, start + 2, i + 1, base as int) == Some(value * base + d));
                    lemma_bits_big(b, start as int, i + 1, base as int);
                    assert(bits_token(bytes@, i0 as int) is None);
                }
                let mut msg = text("the literal `");
                push_ascii(&mut msg, bytes, start, i + 1);
                push_str(&mut msg, "` needs more than 64 bits");
                proof {
                    assert(msg@ =~= bits_fault_from(b, start as int, i as int, base as int));
                }
                return Err(LexError { line, msg });
            },
        }
        proof {
            assert(has_digit(b, start + 2, i + 1)) by {
                assert(b[i as int] != 95u8);
            }
        }
        digits = digits + 1;
        i = i + 1;
    }
    proof {
        assert(i as int == ident_run_end(b, i as int));
    }
    if digits == 0 {
        let mut msg = text("`");
        push_ascii(&mut msg, bytes, start, digits_start);
        push_str(&mut msg, "` has no digits after it");
        return Err(LexError { line, msg });
    }
    Ok((Tok::Bits(value), i))
}
/// The value the decimal digits of `b[from..to]` spell, grouping
/// underscores skipped.
pub open spec fn dec_value(b: Seq<u8>, from: int, to: int) -> int
    decreases to - from,
{
    if to <= from {
        0
    } else if b[to - 1] == 95u8 {
        dec_value(b, from, to - 1)
    } else {
        dec_value(b, from, to - 1) * 10 + (b[to - 1] - 48)
    }
}

/// The characters of `b[from..to]`, grouping underscores left out.
pub open spec fn digits_text(b: Seq<u8>, from: int, to: int) -> Seq<char>
    decreases to - from,
{
    if to <= from {
        Seq::empty()
    } else if b[to - 1] == 95u8 {
        digits_text(b, from, to - 1)
    } else {
        digits_text(b, from, to - 1).push(b[to - 1] as char)
    }
}

/// Where the number at `p` ends, and whether it is a decimal with a
/// fraction: digits, then `.` and digits when a digit follows the `.`;
/// `None` where an underscore does not sit between two digits.
pub open spec fn number_end(b: Seq<u8>, p: int) -> Option<(bool, int)> {
    match dec_run_end(b, p) {
        None => None,
        Some(e) => if e + 1 < b.len() && b[e] == 46u8 && 48 <= b[e + 1] <= 57 {
            match dec_run_end(b, e + 1) {
                Some(e2) => Some((true, e2)),
                None => None,
            }
        } else {
            Some((false, e))
        },
    }
}

/// A run of digits holds only digits and underscores, and ends within the
/// bytes, past its start when it starts at a digit.
proof fn lemma_dec_run(b: Seq<u8>, i: int)
    requires
        0 <= i <= b.len(),
        dec_run_end(b, i) is Some,
    ensures
        i <= dec_run_end(b, i)->0 <= b.len(),
        forall|k: int| i <= k < dec_run_end(b, i)->0 ==> (48 <= #[trigger] b[k] <= 57 || b[k] == 95u8),
        i < b.len() && 48 <= b[i] <= 57 ==> dec_run_end(b, i)->0 > i,
    decreases b.len() - i,
{
    if i < b.len() && (48 <= b[i] <= 57 || b[i] == 95u8) {
        lemma_dec_run(b, i + 1);
    }
}

/// A decimal value grows with its digits, and is never negative.
proof fn lemma_dec_value_grows(b: Seq<u8>, from: int, mid: int, to: int)
    requires
        from <= mid <= to,
        forall|k: int| from <= k < to ==> (48 <= #[trigger] b[k] <= 57 || b[k] == 95u8),
    ensures
        0 <= dec_value(b, from, mid) <= dec_value(b, from, to),
    decreases to - mid,
{
    if mid < to {
        lemma_dec_value_grows(b, from, mid, to - 1);
    } else {
        lemma_dec_value_nonneg(b, from, to);
    }
}

proof fn lemma_dec_value_nonneg(b: Seq<u8>, from: int, to: int)
    requires
        forall|k: int| from <= k < to ==> (48 <= #[trigger] b[k] <= 57 || b[k] == 95u8),
    ensures
        dec_value(b, from, to) >= 0,
    decreases to - from,
{
    if to > from {
        lemma_dec_value_nonneg(b, from, to - 1);
    }
}

/// What the number at `p` is refused for: an underscore not between two
/// digits, or a whole number too large for 64 bits (shown as written).
pub open spec fn number_fault(b: Seq<u8>, p: int) -> Seq<char> {
    match number_end(b, p) {
        None => "an underscore in a number must sit between two digits"@,
        Some((_, e)) => "integer literal out of range: "@ + ascii_chars(b.subrange(p, e)),
    }
}

/// A decimal number at `i`: an `Int` with the value its digits spell, or a
/// `Float` spelled by its digits and `.` when a `.` and a digit follow the
/// integer part; an error where `number_end` finds none, or a whole number
/// does not fit 64 bits.
fn lex_number(bytes: &[u8], i0: usize, line: usize) -> (r: Result<(Tok, usize), LexError>)
    requires
        i0 < bytes@.len() < usize::MAX,
        48 <= bytes@[i0 as int] <= 57,
    ensures
        r matches Ok((t, j)) ==> i0 < j <= bytes@.len() && (t is Int || t is Float) && no_newline(bytes@, i0 as int, j as int),
        r matches Ok((t, j)) ==> match t {
            Tok::Int(v) => number_end(bytes@, i0 as int) == Some((false, j as int)) && v == dec_value(bytes@, i0 as int, j as int),
            Tok::Float(x) => number_end(bytes@, i0 as int) == Some((true, j as int)) && x@ == digits_text(bytes@, i0 as int, j as int),
            _ => false,
        },
        r is Err <==> match number_end(bytes@, i0 as int) {
            None => true,
            Some((f, e)) => !f && dec_value(bytes@, i0 as int, e) > i64::MAX,
        },
        r is Err ==> r->Err_0.line == line,
        r matches Err(e) ==> e.msg@ == number_fault(bytes@, i0 as int),
{
    let n = bytes.len();
    let start = i0;
    let mut i = i0;
    scan_dec_digits(bytes, &mut i, n, line)?;
    proof {
        lemma_dec_run(bytes@, i0 as int);
    }
    // the first byte is a digit, so the scan moved past it
    if i == start {
        i = start + 1;
    }
    let int_end = i;
    let is_float = i + 1 < n && bytes[i] == 46u8 && is_digit(bytes[i + 1]);
    if is_float {
        i = i + 1;
        scan_dec_digits(bytes, &mut i, n, line)?;
        proof {
            lemma_dec_run(bytes@, int_end + 1);
            assert(bytes@[int_end as int] != 10u8);
        }
    }
    proof {
        assert(forall|k: int| start <= k < i ==> (#[trigger] bytes@[k] != 10u8)) by {
            assert forall|k: int| start <= k < i implies #[trigger] bytes@[k] != 10u8 by {
                if k < int_end {
                    assert(48 <= bytes@[k] <= 57 || bytes@[k] == 95u8);
                } else if k > int_end {
                    assert(48 <= bytes@[k] <= 57 || bytes@[k] == 95u8);
                }
            }
        }
    }
    if is_float {
        // The spelling without the grouping underscores.
        let mut t = String::new();
        let mut k = start;
        while k < i
            invariant
                start <= k <= i <= n == bytes@.len(),
                t@ == digits_text(bytes@, start as int, k as int),
            decreases i - k,
        {
            if bytes[k] != 95u8 {
                let ghost before = t@;
                let ch = byte_char(bytes[k]);
                push_char(&mut t, ch);
                proof {
                    vstd::utf8::char_u32_cast(ch, bytes@[k as int] as u32);
                    assert(t@ == before.push(bytes@[k as int] as char));
                }
            }
            k = k + 1;
        }
        return Ok((Tok::Float(t), i));
    }
    let mut v: i64 = 0;
    let mut k = start;
    while k < i
        invariant
            start <= k <= i <= n == bytes@.len(),
            forall|q: int| start <= q < i ==> (48 <= #[trigger] bytes@[q] <= 57 || bytes@[q] == 95u8),
            v == dec_value(bytes@, start as int, k as int),
            start == i0,
            number_end(bytes@, i0 as int) == Some((false, i as int)),
        decreases i - k,
    {
        let c = bytes[k];
        if c != 95u8 {
            let d: i64 = if 48u8 <= c && c <= 57u8 { (c - 48u8) as i64 } else { 0 };
            let next = match v.checked_mul(10) {
                Some(x) => x.checked_add(d),
                None => None,
            };
            match next {
                Some(x) => v = x,
                None => {
                    proof {
                        lemma_dec_value_nonneg(bytes@, start as int, k as int);
                        assert(dec_value(bytes@, start as int, k + 1) == v * 10 + d);
                        assert(v * 10 + d > i64::MAX);
                        lemma_dec_value_grows(bytes@, start as int, k + 1, i as int);
                    }
                    let mut msg = text("integer literal out of range: ");
                    push_ascii(&mut msg, bytes, start, i);
                    return Err(LexError { line, msg });
                },
            }
        }
        k = k + 1;
    }
    Ok((Tok::Int(v), i))
}

/// An identifier or a reserved word at `i`.
fn lex_word(bytes: &[u8], i0: usize) -> (r: (Tok, usize))
    requires
        i0 < bytes@.len(),
        ident_start(bytes@[i0 as int]),
    ensures
        i0 < r.1 <= bytes@.len(),
        r.0 matches Tok::Ident(w) ==> is_name(w@),
        word_run(bytes@, i0 as int, r.1 as int),
        word_token(r.0, ascii_chars(bytes@.subrange(i0 as int, r.1 as int))),
        !(r.0 is Eof) && !(r.0 is Newline) && !(r.0 is Str),
{
    let n = bytes.len();
    let mut i = i0;
    while i < n && is_ident_cont(bytes[i])
        invariant
            i0 <= i <= n == bytes@.len(),
            forall|k: int| i0 <= k < i ==> ident_cont(bytes@[k]),
        decreases n - i,
    {
        i = i + 1;
    }
    let mut w = String::new();
    push_ascii(&mut w, bytes, i0, i);
    proof {
        assert forall|k: int| 0 <= k < w@.len() implies #[trigger] w@[k] == ascii_chars(bytes@.subrange(i0 as int, i as int))[k] by {
            assert(w@[0 + (k + i0) - i0] as u32 == bytes@[k + i0] as u32);
            vstd::utf8::char_u32_cast(w@[k], bytes@[k + i0] as u32);
        }
        assert(w@ =~= ascii_chars(bytes@.subrange(i0 as int, i as int)));
    }
    match keyword(w.as_str()) {
        Some(t) => {
            proof { reveal_strlit("module"); }
            assert(!(t is Eof) && !(t is Newline) && !(t is Str));
            (t, i)
        },
        None => {
            proof {
                assert(w@.len() == i - i0);
                assert(w@[0 + i0 - i0] as u32 == bytes@[i0 as int] as u32);
                assert forall|k: int| 0 <= k < w@.len() implies ident_cont_char(#[trigger] w@[k]) by {
                    let j = k + i0;
                    assert(w@[0 + j - i0] as u32 == bytes@[j] as u32);
                    assert(ident_cont(bytes@[j]));
                }
            }
            (Tok::Ident(w), i)
        },
    }
}

/// Where the run of plain bytes of a string literal from `i` ends: at a
/// quote, a backslash, a line break, or the end.
pub open spec fn plain_run_end(b: Seq<u8>, i: int) -> int
    decreases b.len() - i,
{
    if i < 0 || i >= b.len() || b[i] == 34u8 || b[i] == 92u8 || b[i] == 10u8 { i } else { plain_run_end(b, i + 1) }
}

/// A plain run ends no earlier than it starts, and within the bytes.
pub proof fn lemma_plain_run_end(b: Seq<u8>, i: int)
    requires
        0 <= i <= b.len(),
    ensures
        i <= plain_run_end(b, i) <= b.len(),
    decreases b.len() - i,
{
    if i < b.len() && !(b[i] == 34u8 || b[i] == 92u8 || b[i] == 10u8) {
        lemma_plain_run_end(b, i + 1);
    }
}

/// The character an escape `\e` stands for, if it is one.
pub open spec fn escape_spec(e: u8) -> Option<char> {
    if e == 110 { Some('\n') } else if e == 116 { Some('\t') } else if e == 92 { Some('\\') }
    else if e == 34 { Some('"') } else if e == 48 { Some('\0') } else { None }
}

/// The text a one-line literal's body from `i` spells and the index just
/// past its closing quote: escapes decoded, other bytes read as UTF-8;
/// `None` where the literal is unterminated, holds a line break, an
/// unknown escape, or bytes that are not UTF-8.
pub open spec fn string_body(b: Seq<u8>, i: int) -> Option<(Seq<char>, int)>
    decreases b.len() - i,
{
    if i < 0 || i >= b.len() {
        None
    } else if b[i] == 34u8 {
        Some((Seq::empty(), i + 1))
    } else if b[i] == 10u8 {
        None
    } else if b[i] == 92u8 {
        if i + 1 >= b.len() {
            None
        } else {
            match escape_spec(b[i + 1]) {
                Some(c) => match string_body(b, i + 2) {
                    Some((t, j)) => Some((seq![c] + t, j)),
                    None => None,
                },
                None => None,
            }
        }
    } else {
        let e = plain_run_end(b, i);
        proof {
            lemma_plain_run_end(b, i + 1);
        }
        if valid_utf8(b.subrange(i, e)) {
            match string_body(b, e) {
                Some((t, j)) => Some((decode_utf8(b.subrange(i, e)) + t, j)),
                None => None,
            }
        } else {
            None
        }
    }
}

/// `s` followed by what `rest` reads is what `whole` reads.
pub open spec fn reads_on(s: Seq<char>, rest: Option<(Seq<char>, int)>, whole: Option<(Seq<char>, int)>) -> bool {
    match rest {
        Some((u, j)) => whole == Some((s + u, j)),
        None => whole is None,
    }
}

/// What a one-line literal's body from `i` is refused for: running out
/// before its closing quote, a line break, an escape cut off by the end, an
/// unknown escape (shown), or bytes that are not UTF-8. (Empty where the
/// body is read to its closing quote.)
pub open spec fn string_fault(b: Seq<u8>, i: int) -> Seq<char>
    decreases b.len() - i,
{
    if i < 0 || i >= b.len() {
        "unterminated string literal"@
    } else if b[i] == 34u8 {
        Seq::empty()
    } else if b[i] == 10u8 {
        "newline in string literal"@
    } else if b[i] == 92u8 {
        if i + 1 >= b.len() {
            "unterminated escape"@
        } else if escape_spec(b[i + 1]) is Some {
            string_fault(b, i + 2)
        } else {
            "unknown escape: \\"@.push((b[i + 1] as u32) as char)
        }
    } else {
        let e = plain_run_end(b, i);
        proof {
            lemma_plain_run_end(b, i + 1);
        }
        if valid_utf8(b.subrange(i, e)) { string_fault(b, e) } else { "invalid UTF-8 in string literal"@ }
    }
}

/// Lex a string body starting just after the opening quote; returns the
/// decoded string and the index just past the closing quote. Supports
/// `\n \t \\ \" \0`.
fn lex_string(bytes: &[u8], i0: usize, line: usize) -> (r: Result<(String, usize), LexError>)
    requires
        i0 <= bytes@.len(),
    ensures
        r matches Ok((s, j)) ==> i0 < j <= bytes@.len() && encode_utf8(s@).len() < j - i0 + 1
            && no_newline(bytes@, i0 as int, j as int),
        r matches Ok((s, j)) ==> string_body(bytes@, i0 as int) == Some((s@, j as int)),
        r is Err <==> string_body(bytes@, i0 as int) is None,
        r is Err ==> r->Err_0.line == line,
        r matches Err(e) ==> e.msg@ == string_fault(bytes@, i0 as int),
{
    let mut s = String::new();
    let n = bytes.len();
    let mut i = i0;
    let ghost whole = string_body(bytes@, i0 as int);
    proof {
        assert(encode_utf8(s@) =~= Seq::<u8>::empty());
        match string_body(bytes@, i0 as int) {
            Some((u, j)) => { assert(s@ + u =~= u); },
            None => {},
        }
    }
    loop
        invariant
            i0 <= i <= n == bytes@.len(),
            encode_utf8(s@).len() <= i - i0,
            no_newline(bytes@, i0 as int, i as int),
            whole == string_body(bytes@, i0 as int),
            reads_on(s@, string_body(bytes@, i as int), whole),
            string_fault(bytes@, i0 as int) == string_fault(bytes@, i as int),
        decreases n - i,
    {
        if i >= n {
            return Err(lex_error(line, "unterminated string literal"));
        }
        let c = bytes[i];
        if c == 34u8 {
            proof {
                assert(s@ + Seq::<char>::empty() =~= s@);
            }
            return Ok((s, i + 1));
        } else if c == 10u8 {
            return Err(lex_error(line, "newline in string literal"));
        } else if c == 92u8 {
            let ghost at = i as int;
            i = i + 1;
            if i >= n {
                return Err(lex_error(line, "unterminated escape"));
            }
            let e = bytes[i];
            let ghost before = s@;
            if e == 110u8 {
                push_char(&mut s, '\n');
            } else if e == 116u8 {
                push_char(&mut s, '\t');
            } else if e == 92u8 {
                push_char(&mut s, '\\');
            } else if e == 34u8 {
                push_char(&mut s, '"');
            } else if e == 48u8 {
                push_char(&mut s, '\0');
            } else {
                let mut msg = text("unknown escape: \\");
                push_char(&mut msg, byte_char(e));
                return Err(LexError { line, msg });
            }
            proof {
                let c = s@.last();
                assert(s@ == before.push(c));
                assert((c as u32) < 128);
                lemma_encode_ascii_char(c);
                assert(before.push(c) =~= before + seq![c]);
                lemma_encode_utf8_append(before, seq![c]);
                assert(escape_spec(e) == Some(c));
                match string_body(bytes@, at + 2) {
                    Some((u, j)) => { assert(before + (seq![c] + u) =~= s@ + u); },
                    None => {},
                }
            }
            i = i + 1;
        } else {
            // Pass raw bytes through as-is (UTF-8 preserved).
            let start = i;
            while i < n && bytes[i] != 34u8 && bytes[i] != 92u8 && bytes[i] != 10u8
                invariant
                    i0 <= start <= i <= n == bytes@.len(),
                    no_newline(bytes@, i0 as int, i as int),
                    plain_run_end(bytes@, i as int) == plain_run_end(bytes@, start as int),
                decreases n - i,
            {
                i = i + 1;
            }
            proof {
                assert(plain_run_end(bytes@, i as int) == i);
            }
            let run = crate::text::slice_range(bytes, start, i);
            match text_from_utf8(run.as_slice()) {
                Some(t) => {
                    let ghost before = s@;
                    push_str(&mut s, t.as_str());
                    proof {
                        lemma_encode_utf8_append(before, t@);
                        decode_utf8_encode_utf8(run@);
                        match string_body(bytes@, i as int) {
                            Some((u, j)) => { assert(before + (decode_utf8(run@) + u) =~= s@ + u); },
                            None => {},
                        }
                    }
                },
                None => {
                    return Err(lex_error(line, "invalid UTF-8 in string literal"));
                },
            }
        }
    }
}

/// Where a raw literal's body from `i` ends: at a quote, a line break, or
/// the end.
pub open spec fn raw_run_end(b: Seq<u8>, i: int) -> int
    decreases b.len() - i,
{
    if i < 0 || i >= b.len() || b[i] == 34u8 || b[i] == 10u8 { i } else { raw_run_end(b, i + 1) }
}

/// The text a raw literal's body from `i` holds, exactly as written, and
/// the index just past its closing quote; `None` where it is unterminated,
/// holds a line break, or is not UTF-8.
pub open spec fn raw_body(b: Seq<u8>, i: int) -> Option<(Seq<char>, int)> {
    let e = raw_run_end(b, i);
    if e < b.len() && b[e] == 34u8 && valid_utf8(b.subrange(i, e)) {
        Some((decode_utf8(b.subrange(i, e)), e + 1))
    } else {
        None
    }
}

/// What a raw literal's body from `i` is refused for: running out before
/// its closing quote, a line break, or bytes that are not UTF-8.
pub open spec fn raw_fault(b: Seq<u8>, i: int) -> Seq<char> {
    let e = raw_run_end(b, i);
    if e >= b.len() {
        "unterminated string literal"@
    } else if b[e] == 10u8 {
        "newline in string literal"@
    } else {
        "invalid UTF-8 in string literal"@
    }
}

/// Lex a raw literal's body starting just after `r"`: its bytes up to the
/// next `"`, exactly as written. Returns the text and the index just past
/// the closing quote.
fn lex_raw(bytes: &[u8], i0: usize, line: usize) -> (r: Result<(String, usize), LexError>)
    requires
        i0 <= bytes@.len(),
    ensures
        r matches Ok((s, j)) ==> i0 < j <= bytes@.len() && no_newline(bytes@, i0 as int, j as int),
        r matches Ok((s, j)) ==> raw_body(bytes@, i0 as int) == Some((s@, j as int)),
        r is Err <==> raw_body(bytes@, i0 as int) is None,
        r is Err ==> r->Err_0.line == line,
        r matches Err(e) ==> e.msg@ == raw_fault(bytes@, i0 as int),
{
    let n = bytes.len();
    let mut i = i0;
    while i < n && bytes[i] != 34u8 && bytes[i] != 10u8
        invariant
            i0 <= i <= n == bytes@.len(),
            no_newline(bytes@, i0 as int, i as int),
            raw_run_end(bytes@, i as int) == raw_run_end(bytes@, i0 as int),
        decreases n - i,
    {
        i = i + 1;
    }
    proof {
        assert(raw_run_end(bytes@, i as int) == i);
    }
    if i >= n {
        return Err(lex_error(line, "unterminated string literal"));
    }
    if bytes[i] == 10u8 {
        return Err(lex_error(line, "newline in string literal"));
    }
    let run = crate::text::slice_range(bytes, i0, i);
    match text_from_utf8(run.as_slice()) {
        Some(t) => Ok((t, i + 1)),
        None => Err(lex_error(line, "invalid UTF-8 in string literal")),
    }
}

/// The character an escape `\e` stands for: `\n \t \\ \" \0`.
fn escape_char(e: u8) -> (r: Option<char>)
    ensures
        r matches Some(c) ==> (c as u32) < 128,
        r == (if e == 110 { Some('\n') } else if e == 116 { Some('\t') } else if e == 92 { Some('\\') }
            else if e == 34 { Some('"') } else if e == 48 { Some('\0') } else { None }),
{
    if e == 110u8 {
        Some('\n')
    } else if e == 116u8 {
        Some('\t')
    } else if e == 92u8 {
        Some('\\')
    } else if e == 34u8 {
        Some('"')
    } else if e == 48u8 {
        Some('\0')
    } else {
        None
    }
}

/// Append an ASCII character; its encoding grows by one byte.
fn push_ascii_char(s: &mut String, c: char)
    requires
        (c as u32) < 128,
    ensures
        final(s)@ == old(s)@.push(c),
        encode_utf8(final(s)@).len() == encode_utf8(old(s)@).len() + 1,
{
    let ghost before = s@;
    push_char(s, c);
    proof {
        lemma_encode_ascii_char(c);
        assert(before.push(c) =~= before + seq![c]);
        lemma_encode_utf8_append(before, seq![c]);
    }
}

/// The text a block literal's body from `i` spells and the index just past
/// its closing `"""`: line breaks and a `"` that does not begin `"""` are
/// the literal's own, escapes are decoded, other bytes read as UTF-8;
/// `None` where the literal is unterminated, holds an unknown escape, or
/// bytes that are not UTF-8.
pub open spec fn block_body(b: Seq<u8>, i: int) -> Option<(Seq<char>, int)>
    decreases b.len() - i,
{
    if i < 0 || i >= b.len() {
        None
    } else if i + 2 < b.len() && b[i] == 34u8 && b[i + 1] == 34u8 && b[i + 2] == 34u8 {
        Some((Seq::empty(), i + 3))
    } else if b[i] == 92u8 {
        if i + 1 >= b.len() {
            None
        } else {
            match escape_spec(b[i + 1]) {
                Some(c) => match block_body(b, i + 2) {
                    Some((t, j)) => Some((seq![c] + t, j)),
                    None => None,
                },
                None => None,
            }
        }
    } else if b[i] == 10u8 || b[i] == 34u8 {
        match block_body(b, i + 1) {
            Some((t, j)) => Some((seq![if b[i] == 10u8 { '\n' } else { '"' }] + t, j)),
            None => None,
        }
    } else {
        let e = plain_run_end(b, i);
        proof {
            lemma_plain_run_end(b, i + 1);
        }
        if valid_utf8(b.subrange(i, e)) {
            match block_body(b, e) {
                Some((t, j)) => Some((decode_utf8(b.subrange(i, e)) + t, j)),
                None => None,
            }
        } else {
            None
        }
    }
}

/// What a block literal's body from `i` is refused for: running out before
/// its closing `"""`, an escape cut off by the end, an unknown escape
/// (shown), or bytes that are not UTF-8. (Empty where the body is read to
/// its close.)
pub open spec fn block_fault(b: Seq<u8>, i: int) -> Seq<char>
    decreases b.len() - i,
{
    if i < 0 || i >= b.len() {
        "unterminated block literal"@
    } else if i + 2 < b.len() && b[i] == 34u8 && b[i + 1] == 34u8 && b[i + 2] == 34u8 {
        Seq::empty()
    } else if b[i] == 92u8 {
        if i + 1 >= b.len() {
            "unterminated escape"@
        } else if escape_spec(b[i + 1]) is Some {
            block_fault(b, i + 2)
        } else {
            "unknown escape: \\"@.push((b[i + 1] as u32) as char)
        }
    } else if b[i] == 10u8 || b[i] == 34u8 {
        block_fault(b, i + 1)
    } else {
        let e = plain_run_end(b, i);
        proof {
            lemma_plain_run_end(b, i + 1);
        }
        if valid_utf8(b.subrange(i, e)) { block_fault(b, e) } else { "invalid UTF-8 in string literal"@ }
    }
}

/// What a block literal whose body begins at `i` is refused for, the line
/// break straight after the opening delimiter skipped.
pub open spec fn block_text_fault(b: Seq<u8>, i: int) -> Seq<char> {
    if 0 <= i < b.len() && b[i] == 10u8 { block_fault(b, i + 1) } else { block_fault(b, i) }
}

/// The text of a block literal whose body begins at `i`, one line break
/// straight after the opening delimiter dropped, and the index just past
/// its closing `"""`.
#[verifier::opaque]
pub open spec fn block_text(b: Seq<u8>, i: int) -> Option<(Seq<char>, int)> {
    if 0 <= i < b.len() && b[i] == 10u8 { block_body(b, i + 1) } else { block_body(b, i) }
}

/// Lex a block literal's body starting just after the opening `"""`. One
/// line break straight after the delimiter is dropped; after that, line
/// breaks, and a `"` that does not begin `"""`, are the literal's own, and
/// escapes are as in a one-line literal. Returns the text, the index just
/// past the closing `"""`, how many line breaks were read, and the index
/// just past the last of them.
fn lex_block(bytes: &[u8], i0: usize, line: usize) -> (r: Result<(String, usize, usize, usize), LexError>)
    requires
        i0 <= bytes@.len(),
    ensures
        r matches Ok((s, j, nl, last)) ==> {
            &&& i0 < j <= bytes@.len()
            &&& encode_utf8(s@).len() < j - i0 + 1
            &&& nl <= j - i0
            &&& (nl > 0 ==> i0 < last <= j)
            &&& newlines_in(bytes@, j as int) == newlines_in(bytes@, i0 as int) + nl
            &&& line_begin_at(bytes@, j as int) == if nl > 0 { last as int } else { line_begin_at(bytes@, i0 as int) }
        },
        r matches Ok((s, j, nl, last)) ==> block_text(bytes@, i0 as int) == Some((s@, j as int)),
        r is Err <==> block_text(bytes@, i0 as int) is None,
        r is Err ==> r->Err_0.line == line,
        r matches Err(e) ==> e.msg@ == block_text_fault(bytes@, i0 as int),
{
    let n = bytes.len();
    let mut s = String::new();
    let mut i = i0;
    let mut nl: usize = 0;
    let mut last: usize = 0;
    let ghost whole = block_text(bytes@, i0 as int);
    proof {
        reveal(block_text);
    }
    proof {
        assert(encode_utf8(s@) =~= Seq::<u8>::empty());
    }
    if i < n && bytes[i] == 10u8 {
        i = i + 1;
        nl = 1;
        last = i;
    }
    proof {
        match block_body(bytes@, i as int) {
            Some((u, j)) => { assert(s@ + u =~= u); },
            None => {},
        }
        if nl > 0 {
            assert(newlines_in(bytes@, i as int) == newlines_in(bytes@, i0 as int) + 1);
            assert(line_begin_at(bytes@, i as int) == i);
        }
    }
    loop
        invariant
            i0 <= i <= n == bytes@.len(),
            encode_utf8(s@).len() <= i - i0,
            nl <= i - i0,
            nl > 0 ==> i0 < last <= i,
            newlines_in(bytes@, i as int) == newlines_in(bytes@, i0 as int) + nl,
            line_begin_at(bytes@, i as int) == if nl > 0 { last as int } else { line_begin_at(bytes@, i0 as int) },
            whole == block_text(bytes@, i0 as int),
            reads_on(s@, block_body(bytes@, i as int), whole),
            block_text_fault(bytes@, i0 as int) == block_fault(bytes@, i as int),
        decreases n - i,
    {
        if i >= n {
            return Err(lex_error(line, "unterminated block literal"));
        }
        let c = bytes[i];
        if c == 34u8 && n - i >= 3 && bytes[i + 1] == 34u8 && bytes[i + 2] == 34u8 {
            proof {
                lemma_same_line(bytes@, i as int, i + 3);
                assert(s@ + Seq::<char>::empty() =~= s@);
            }
            return Ok((s, i + 3, nl, last));
        } else if c == 92u8 {
            if n - i < 2 {
                return Err(lex_error(line, "unterminated escape"));
            }
            let e = bytes[i + 1];
            let ghost before = s@;
            match escape_char(e) {
                Some(ch) => push_ascii_char(&mut s, ch),
                None => {
                    let mut msg = text("unknown escape: \\");
                    push_char(&mut msg, byte_char(e));
                    return Err(LexError { line, msg });
                },
            }
            proof {
                lemma_same_line(bytes@, i as int, i + 2);
                let c = s@.last();
                assert(escape_spec(e) == Some(c));
                match block_body(bytes@, i + 2) {
                    Some((u, j)) => { assert(before + (seq![c] + u) =~= s@ + u); },
                    None => {},
                }
            }
            i = i + 2;
        } else if c == 10u8 {
            let ghost before = s@;
            push_ascii_char(&mut s, '\n');
            proof {
                match block_body(bytes@, i + 1) {
                    Some((u, j)) => { assert(before + (seq!['\n'] + u) =~= s@ + u); },
                    None => {},
                }
                assert(newlines_in(bytes@, i + 1) == newlines_in(bytes@, i as int) + 1);
                assert(line_begin_at(bytes@, i + 1) == i + 1);
            }
            i = i + 1;
            nl = nl + 1;
            last = i;
        } else if c == 34u8 {
            let ghost before = s@;
            push_ascii_char(&mut s, '"');
            proof {
                match block_body(bytes@, i + 1) {
                    Some((u, j)) => { assert(before + (seq!['"'] + u) =~= s@ + u); },
                    None => {},
                }
                lemma_same_line(bytes@, i as int, i + 1);
            }
            i = i + 1;
        } else {
            let start = i;
            while i < n && bytes[i] != 34u8 && bytes[i] != 92u8 && bytes[i] != 10u8
                invariant
                    i0 <= start <= i <= n == bytes@.len(),
                    no_newline(bytes@, start as int, i as int),
                    newlines_in(bytes@, start as int) == newlines_in(bytes@, i0 as int) + nl,
                    line_begin_at(bytes@, start as int) == if nl > 0 { last as int } else { line_begin_at(bytes@, i0 as int) },
                    plain_run_end(bytes@, i as int) == plain_run_end(bytes@, start as int),
                decreases n - i,
            {
                i = i + 1;
            }
            proof {
                lemma_same_line(bytes@, start as int, i as int);
                assert(plain_run_end(bytes@, i as int) == i);
            }
            let run = crate::text::slice_range(bytes, start, i);
            match text_from_utf8(run.as_slice()) {
                Some(t) => {
                    let ghost before = s@;
                    push_str(&mut s, t.as_str());
                    proof {
                        lemma_encode_utf8_append(before, t@);
                        decode_utf8_encode_utf8(run@);
                        match block_body(bytes@, i as int) {
                            Some((u, j)) => { assert(before + (decode_utf8(run@) + u) =~= s@ + u); },
                            None => {},
                        }
                    }
                },
                None => {
                    return Err(lex_error(line, "invalid UTF-8 in string literal"));
                },
            }
        }
    }
}

/// Push a token with its position onto the stream.
#[verifier::rlimit(100)]
#[verifier::spinoff_prover]
fn push_tok(out: &mut Vec<Spanned>, tok: Tok, line: usize, col: usize, end_col: usize, Ghost(n): Ghost<nat>)
    requires
        lexed_so_far(old(out)@, line),
        strs_within(old(out)@, n),
        tok matches Tok::Str(s) ==> encode_utf8(s@).len() < n,
        line >= 1,
        col < end_col,
        !(tok is Eof),
        tok matches Tok::Ident(w) ==> is_name(w@),
        tok is Newline ==> old(out)@.len() > 0 && !(old(out)@.last().tok is Newline),
        col >= 1,
        old(out)@.len() > 0 ==> ends_before(old(out)@.last(), Spanned { tok, line, col, end_col }),
    ensures
        lexed_so_far(final(out)@, line),
        strs_within(final(out)@, n),
        final(out)@.len() == old(out)@.len() + 1,
        final(out)@.last().tok == tok,
        final(out)@.last().line == line && final(out)@.last().col == col && final(out)@.last().end_col == end_col,
        final(out)@ == old(out)@.push(final(out)@.last()),
{
    let ghost before = out@;
    out.push(Spanned { tok, line, col, end_col });
    proof {
        let t = out@;
        assert(t.drop_last() =~= before);
        assert forall|k: int| 0 <= k < t.len() - 1 implies !(#[trigger] t[k].tok is Newline && t[k + 1].tok is Newline) by {
            if k < t.len() - 2 {
                assert(t[k] == before[k] && t[k + 1] == before[k + 1]);
            }
        }
        assert forall|j: int, k: int| 0 <= j <= k < t.len() implies #[trigger] t[j].line <= #[trigger] t[k].line by {
            if k < t.len() - 1 {
                assert(t[j] == before[j] && t[k] == before[k]);
            } else if j < t.len() - 1 {
                assert(t[j] == before[j]);
            }
        }
        assert forall|k: int| 0 <= k < t.len() implies (#[trigger] t[k].tok matches Tok::Str(s) ==> encode_utf8(s@).len() < n) by {
            if k < t.len() - 1 {
                assert(t[k] == before[k]);
            }
        }
        assert forall|k: int| 0 <= k < t.len() - 1 implies ends_before(#[trigger] t[k], t[k + 1]) by {
            if k < t.len() - 2 {
                assert(t[k] == before[k] && t[k + 1] == before[k + 1]);
            }
        }
        assert forall|k: int| 0 <= k < t.len() implies #[trigger] t[k].col >= 1 by {
            if k < t.len() - 1 {
                assert(t[k] == before[k]);
            }
        }
    }
}

/// The operator or bracket at `i`, and how many bytes it takes.
pub open spec fn punct_at(b: Seq<u8>, i: int) -> Option<(Tok, int)> {
    let c = b[i];
    let next = if i + 1 < b.len() { b[i + 1] as int } else { -1 };
    if c == 40 { Some((Tok::LParen, 1)) }
    else if c == 41 { Some((Tok::RParen, 1)) }
    else if c == 91 { Some((Tok::LBracket, 1)) }
    else if c == 93 { Some((Tok::RBracket, 1)) }
    else if c == 123 { Some((Tok::LBrace, 1)) }
    else if c == 125 { Some((Tok::RBrace, 1)) }
    else if c == 44 { Some((Tok::Comma, 1)) }
    else if c == 58 { Some((Tok::Colon, 1)) }
    else if c == 46 { if next == 46 { Some((Tok::DotDot, 2)) } else { Some((Tok::Dot, 1)) } }
    else if c == 61 { Some((Tok::Eq, 1)) }
    else if c == 60 {
        if next == 61 { Some((Tok::Le, 2)) } else if next == 62 { Some((Tok::Ne, 2)) } else { Some((Tok::Lt, 1)) }
    }
    else if c == 62 { if next == 61 { Some((Tok::Ge, 2)) } else { Some((Tok::Gt, 1)) } }
    else if c == 43 { if next == 61 { Some((Tok::PlusEq, 2)) } else { Some((Tok::Plus, 1)) } }
    else if c == 45 { if next == 61 { Some((Tok::MinusEq, 2)) } else { Some((Tok::Minus, 1)) } }
    else if c == 42 { if next == 61 { Some((Tok::StarEq, 2)) } else { Some((Tok::Star, 1)) } }
    else if c == 47 { if next == 61 { Some((Tok::SlashEq, 2)) } else { Some((Tok::Slash, 1)) } }
    else if c == 37 { Some((Tok::Percent, 1)) }
    else if c == 38 && next == 61 { Some((Tok::AmpEq, 2)) }
    else { None }
}

/// A one- or two-byte operator or bracket at `i`, and how many bytes it
/// takes: `..` before `.`, `<=` and `<>` before `<`, and each `+=`-style
/// compound assignment before its bare operator.
fn punct(bytes: &[u8], i: usize) -> (r: Option<(Tok, usize)>)
    requires
    i < bytes@.len() < usize::MAX,
    ensures
    r matches Some((t, w)) ==> 1 <= w <= 2 && i + w <= bytes@.len() && !(t is Eof)
        && !(t is Newline) && !(t is Ident) && !(t is Str),
    match (r, punct_at(bytes@, i as int)) {
        (Some((t, w)), Some((u, v))) => t == u && w == v,
        (None, None) => true,
        _ => false,
    },
{
    let n = bytes.len();
    let c = bytes[i];
    if c == 40u8 {
        return Some((Tok::LParen, 1));
    } else if c == 41u8 {
        return Some((Tok::RParen, 1));
    } else if c == 91u8 {
        return Some((Tok::LBracket, 1));
    } else if c == 93u8 {
        return Some((Tok::RBracket, 1));
    } else if c == 123u8 {
        return Some((Tok::LBrace, 1));
    } else if c == 125u8 {
        return Some((Tok::RBrace, 1));
    } else if c == 44u8 {
        return Some((Tok::Comma, 1));
    } else if c == 58u8 {
        return Some((Tok::Colon, 1));
    } else if c == 46u8 && i + 1 < n && bytes[i + 1] == 46u8 {
        return Some((Tok::DotDot, 2));
    } else if c == 46u8 {
        return Some((Tok::Dot, 1));
    } else if c == 61u8 {
        return Some((Tok::Eq, 1));
    } else if c == 60u8 {
        if i + 1 < n && bytes[i + 1] == 61u8 {
            return Some((Tok::Le, 2));
        } else if i + 1 < n && bytes[i + 1] == 62u8 {
            return Some((Tok::Ne, 2));
        } else {
            return Some((Tok::Lt, 1));
        }
    } else if c == 62u8 {
        if i + 1 < n && bytes[i + 1] == 61u8 {
            return Some((Tok::Ge, 2));
        } else {
            return Some((Tok::Gt, 1));
        }
    } else if c == 43u8 && i + 1 < n && bytes[i + 1] == 61u8 {
        return Some((Tok::PlusEq, 2));
    } else if c == 43u8 {
        return Some((Tok::Plus, 1));
    } else if c == 45u8 && i + 1 < n && bytes[i + 1] == 61u8 {
        return Some((Tok::MinusEq, 2));
    } else if c == 45u8 {
        return Some((Tok::Minus, 1));
    } else if c == 42u8 && i + 1 < n && bytes[i + 1] == 61u8 {
        return Some((Tok::StarEq, 2));
    } else if c == 42u8 {
        return Some((Tok::Star, 1));
    } else if c == 47u8 && i + 1 < n && bytes[i + 1] == 61u8 {
        return Some((Tok::SlashEq, 2));
    } else if c == 47u8 {
        return Some((Tok::Slash, 1));
    } else if c == 37u8 {
        return Some((Tok::Percent, 1));
    } else if c == 38u8 && i + 1 < n && bytes[i + 1] == 61u8 {
        return Some((Tok::AmpEq, 2));
    }
    None
}

/// A bit pattern's `0x`, `0X`, `0b` or `0B` begins at byte `i`.
pub open spec fn bits_at(b: Seq<u8>, i: int) -> bool {
    0 <= i && i + 1 < b.len() && b[i] == 48u8
        && (b[i + 1] == 120u8 || b[i + 1] == 88u8 || b[i + 1] == 98u8 || b[i + 1] == 66u8)
}

/// A raw literal's `r"` begins at byte `i`.
pub open spec fn raw_at(b: Seq<u8>, i: int) -> bool {
    0 <= i && i + 1 < b.len() && b[i] == 114u8 && b[i + 1] == 34u8
}

/// Byte `i` is not blank space, a line break or a comment, and no token can
/// be read from it: it begins no operator, word, number, bit pattern or
/// literal, or what it begins is malformed (a literal unterminated or with
/// a bad escape or bad UTF-8, a bit pattern with a bad digit or too many
/// bits, a number out of range).
pub open spec fn stuck_at(b: Seq<u8>, i: int) -> bool {
    &&& 0 <= i < b.len()
    &&& !(b[i] == 10u8 || b[i] == 32u8 || b[i] == 9u8 || b[i] == 13u8 || b[i] == 35u8)
    &&& punct_at(b, i) is None
    &&& (block_at(b, i) ==> block_text(b, i + 3) is None)
    &&& (b[i] == 34u8 && !block_at(b, i) ==> string_body(b, i + 1) is None)
    &&& (raw_at(b, i) ==> raw_body(b, i + 2) is None)
    &&& (bits_at(b, i) ==> bits_token(b, i) is None)
    &&& (48 <= b[i] <= 57 && !bits_at(b, i) ==> match number_end(b, i) {
        None => true,
        Some((f, e)) => !f && dec_value(b, i, e) > i64::MAX,
    })
    &&& (ident_start(b[i]) ==> raw_at(b, i))
}

/// What the lexer says of byte `i`, where no token can be read: what the
/// literal, bit pattern or number beginning there is refused for, or that
/// the byte (shown) begins nothing.
pub open spec fn stuck_msg(b: Seq<u8>, i: int) -> Seq<char> {
    if block_at(b, i) {
        block_text_fault(b, i + 3)
    } else if b[i] == 34u8 {
        string_fault(b, i + 1)
    } else if raw_at(b, i) {
        raw_fault(b, i + 2)
    } else if bits_at(b, i) {
        bits_fault(b, i)
    } else if 48 <= b[i] <= 57 {
        number_fault(b, i)
    } else {
        "unexpected character: "@ + byte_char_debug(b[i])
    }
}

/// The tokens `t`, read at `ps..qs`, are followed by blank space up to byte
/// `i`, where no token can be read.
pub open spec fn stops_at(b: Seq<u8>, t: Seq<Spanned>, ps: Seq<int>, qs: Seq<int>, i: int) -> bool {
    &&& read_at(b, t, ps, qs)
    &&& newlines_collapsed(t)
    &&& forall|k: int| 0 <= k < t.len() ==> !(#[trigger] t[k].tok is Eof)
    &&& blank_gap(b, if t.len() == 0 { 0 } else { qs.last() }, i, t.len() == 0 || t.last().tok is Newline)
    &&& out_of_comment(b, if t.len() == 0 { 0 } else { qs.last() }, i)
    &&& stuck_at(b, i)
}

/// Tokenize a whole source text.
pub fn lex(src: &str) -> (r: Result<Vec<Spanned>, LexError>)
    requires
        src.spec_bytes().len() < usize::MAX,
    ensures
        r matches Ok(t) ==> well_lexed(t@) && strs_within(t@, src.spec_bytes().len()),
        r matches Ok(t) ==> read_from(src.spec_bytes(), t@),
        r matches Err(e) ==> exists|t: Seq<Spanned>, ps: Seq<int>, qs: Seq<int>, i: int|
            #[trigger] stops_at(src.spec_bytes(), t, ps, qs, i) && e.line == newlines_in(src.spec_bytes(), i) + 1
            && e.msg@ == stuck_msg(src.spec_bytes(), i),
        r is Err <==> forall|t: Seq<Spanned>| !(#[trigger] read_from(src.spec_bytes(), t) && well_lexed(t)),
{
    lex_bytes(src.as_bytes())
}

/// Tokenize source text given as its bytes.
pub fn lex_bytes(bytes: &[u8]) -> (r: Result<Vec<Spanned>, LexError>)
    requires
        bytes@.len() < usize::MAX,
    ensures
        r matches Ok(t) ==> well_lexed(t@) && strs_within(t@, bytes@.len()),
        r matches Ok(t) ==> read_from(bytes@, t@),
        r matches Err(e) ==> exists|t: Seq<Spanned>, ps: Seq<int>, qs: Seq<int>, i: int|
            #[trigger] stops_at(bytes@, t, ps, qs, i) && e.line == newlines_in(bytes@, i) + 1
            && e.msg@ == stuck_msg(bytes@, i),
        r is Err <==> forall|t: Seq<Spanned>| !(#[trigger] read_from(bytes@, t) && well_lexed(t)),
{
    let r = scan(bytes);
    proof {
        if r is Err {
            let (t, ps, qs, i) = choose|t: Seq<Spanned>, ps: Seq<int>, qs: Seq<int>, i: int|
                #[trigger] stops_at(bytes@, t, ps, qs, i) && r->Err_0.line == newlines_in(bytes@, i) + 1
                && r->Err_0.msg@ == stuck_msg(bytes@, i);
            assert forall|t2: Seq<Spanned>| !(#[trigger] read_from(bytes@, t2) && well_lexed(t2)) by {
                law_stuck_text_has_no_reading(bytes@, t, ps, qs, i, t2);
            }
        }
    }
    r
}

/// Tokenize source text given as its bytes: the tokens read, or where and
/// why reading stops.
#[verifier::rlimit(100)]
#[verifier::spinoff_prover]
fn scan(bytes: &[u8]) -> (r: Result<Vec<Spanned>, LexError>)
    requires
        bytes@.len() < usize::MAX,
    ensures
        r matches Ok(t) ==> well_lexed(t@) && strs_within(t@, bytes@.len()),
        r matches Ok(t) ==> read_from(bytes@, t@),
        r matches Err(e) ==> exists|t: Seq<Spanned>, ps: Seq<int>, qs: Seq<int>, i: int|
            #[trigger] stops_at(bytes@, t, ps, qs, i) && e.line == newlines_in(bytes@, i) + 1
            && e.msg@ == stuck_msg(bytes@, i),
{
    let mut out: Vec<Spanned> = Vec::new();
    let mut line: usize = 1;
    let mut i: usize = 0;
    let n = bytes.len();
    let mut line_start: usize = 0;
    let ghost mut ps: Seq<int> = Seq::empty();
    let ghost mut qs: Seq<int> = Seq::empty();
    let ghost mut gap_from: int = 0;
    proof {
        reveal(read_at);
        lemma_gap_empty(bytes@, 0, true);
    }

    while i < n
        invariant
            n == bytes@.len() < usize::MAX,
            line_start <= i <= n,
            1 <= line <= i + 1,
            lexed_so_far(out@, line),
            strs_within(out@, n as nat),
            out@.len() > 0 ==> out@.last().line < line
                || (out@.last().line == line && out@.last().end_col <= i - line_start + 1),
            line == newlines_in(bytes@, i as int) + 1,
            line_start == line_begin_at(bytes@, i as int),
            read_at(bytes@, out@, ps, qs),
            gap_from == if out@.len() == 0 { 0 } else { qs.last() },
            0 <= gap_from <= i,
            blank_gap(bytes@, gap_from, i as int, out@.len() == 0 || out@.last().tok is Newline),
            out_of_comment(bytes@, gap_from, i as int),
        decreases n - i,
    {
        let c = bytes[i];
        let start_col = i - line_start + 1;
        let ghost p0 = i as int;
        let ghost brk = out@.len() == 0 || out@.last().tok is Newline;
        let mut produced: Option<Tok> = None;
        if c == 10u8 {
            let collapse = out.len() == 0 || matches!(out[out.len() - 1].tok, Tok::Newline);
            if !collapse {
                let ghost t0 = out@;
                push_tok(&mut out, Tok::Newline, line, start_col, start_col + 1, Ghost(n as nat));
                proof {
                    assert(out@ == t0.push(out@.last()));
                    lemma_token_at_intro(bytes@, out@.last(), p0, p0 + 1);
                    lemma_read_at_push(bytes@, t0, ps, qs, out@.last(), p0, p0 + 1);
                    ps = ps.push(p0);
                    qs = qs.push(p0 + 1);
                    gap_from = p0 + 1;
                    lemma_gap_empty(bytes@, p0 + 1, out@.len() == 0 || out@.last().tok is Newline);
                }
            } else {
                proof {
                    lemma_gap_grow(bytes@, gap_from, p0, brk);
                }
            }
            proof {
                assert(newlines_in(bytes@, i + 1) == newlines_in(bytes@, i as int) + 1);
                assert(line_begin_at(bytes@, i + 1) == i + 1);
            }
            line = line + 1;
            i = i + 1;
            line_start = i;
            proof {
                assert forall|k: int| 0 <= k < out@.len() implies 1 <= #[trigger] out@[k].line <= line by {}
            }
        } else if c == 32u8 || c == 9u8 || c == 13u8 {
            proof {
                lemma_same_line(bytes@, i as int, i + 1);
                lemma_gap_grow(bytes@, gap_from, p0, brk);
            }
            i = i + 1;
        } else if c == 35u8 {
            let ghost i0 = i;
            while i < n && bytes[i] != 10u8
                invariant
                    line_start <= i0 <= i <= n == bytes@.len(),
                    i0 < n && bytes@[i0 as int] == 35u8,
                    no_newline(bytes@, i0 as int, i as int),
                    gap_from <= i0,
                    blank_gap(bytes@, gap_from, i as int, brk),
                decreases n - i,
            {
                proof {
                    assert(no_newline(bytes@, i0 as int, i + 1));
                    lemma_gap_comment(bytes@, gap_from, i0 as int, i as int, brk);
                }
                i = i + 1;
            }
            proof {
                lemma_same_line(bytes@, i0 as int, i as int);
            }
        } else if let Some((t, w)) = punct(bytes, i) {
            proof {
                if w == 2 {
                    assert(bytes@[i + 1] != 10u8);
                }
                lemma_same_line(bytes@, i as int, i + w);
            }
            produced = Some(t);
            i = i + w;
        } else if c == 34u8 && n - i >= 3 && bytes[i + 1] == 34u8 && bytes[i + 2] == 34u8 {
            proof {
                lemma_same_line(bytes@, i as int, i + 3);
            }
            let (s, ni, nl, last) = match lex_block(bytes, i + 3, line) {
                Ok(v) => v,
                Err(e) => {
                proof {
                        assert(stops_at(bytes@, out@, ps, qs, p0));
                    assert(e.msg@ == stuck_msg(bytes@, p0));
                    }
                    return Err(e);
                },
            };
            let end_col = if nl == 0 { ni - line_start + 1 } else { start_col + 3 };
            let ghost t0 = out@;
            push_tok(&mut out, Tok::Str(s), line, start_col, end_col, Ghost(n as nat));
            proof {
                assert(out@ == t0.push(out@.last()));
                assert(block_at(bytes@, p0));
                lemma_token_at_intro(bytes@, out@.last(), p0, ni as int);
                lemma_read_at_push(bytes@, t0, ps, qs, out@.last(), p0, ni as int);
                ps = ps.push(p0);
                qs = qs.push(ni as int);
                gap_from = ni as int;
                lemma_gap_empty(bytes@, ni as int, out@.len() == 0 || out@.last().tok is Newline);
            }
            i = ni;
            if nl > 0 {
                line = line + nl;
                line_start = last;
                proof {
                    assert forall|k: int| 0 <= k < out@.len() implies 1 <= #[trigger] out@[k].line <= line by {}
                }
            }
        } else if c == 34u8 {
            let (s, ni) = match lex_string(bytes, i + 1, line) {
                Ok(v) => v,
                Err(e) => {
                proof {
                        assert(stops_at(bytes@, out@, ps, qs, p0));
                    assert(e.msg@ == stuck_msg(bytes@, p0));
                    }
                    return Err(e);
                },
            };
            proof {
                lemma_same_line(bytes@, i as int, ni as int);
            }
            produced = Some(Tok::Str(s));
            i = ni;
        } else if c == 114u8 && n - i >= 2 && bytes[i + 1] == 34u8 {
            let (s, ni) = match lex_raw(bytes, i + 2, line) {
                Ok(v) => v,
                Err(e) => {
                proof {
                        assert(stops_at(bytes@, out@, ps, qs, p0));
                    assert(e.msg@ == stuck_msg(bytes@, p0));
                    }
                    return Err(e);
                },
            };
            proof {
                lemma_same_line(bytes@, i as int, ni as int);
            }
            produced = Some(Tok::RawStr(s));
            i = ni;
        } else if c == 48u8 && i + 1 < n && (bytes[i + 1] == 120u8 || bytes[i + 1] == 88u8
            || bytes[i + 1] == 98u8 || bytes[i + 1] == 66u8) {
            let (t, ni) = match lex_bits(bytes, i, line) {
                Ok(v) => v,
                Err(e) => {
                proof {
                        assert(stops_at(bytes@, out@, ps, qs, p0));
                    assert(e.msg@ == stuck_msg(bytes@, p0));
                    }
                    return Err(e);
                },
            };
            proof {
                lemma_same_line(bytes@, i as int, ni as int);
            }
            produced = Some(t);
            i = ni;
        } else if is_digit(c) {
            let (t, ni) = match lex_number(bytes, i, line) {
                Ok(v) => v,
                Err(e) => {
                proof {
                        assert(stops_at(bytes@, out@, ps, qs, p0));
                    assert(e.msg@ == stuck_msg(bytes@, p0));
                    }
                    return Err(e);
                },
            };
            proof {
                lemma_same_line(bytes@, i as int, ni as int);
            }
            produced = Some(t);
            i = ni;
        } else if is_ident_start(c) {
            let (t, ni) = lex_word(bytes, i);
            proof {
                assert(word_run(bytes@, i as int, ni as int));
                lemma_same_line(bytes@, i as int, ni as int);
            }
            produced = Some(t);
            i = ni;
        } else {
            let mut msg = text("unexpected character: ");
            push_byte_char_debug(&mut msg, c);
            proof {
                assert(stops_at(bytes@, out@, ps, qs, p0));
                reveal_strlit("unexpected character: ");
                assert(msg@ == stuck_msg(bytes@, p0));
            }
            return Err(LexError { line, msg });
        }
        match produced {
            Some(t) => {
                let ghost t0 = out@;
                push_tok(&mut out, t, line, start_col, i - line_start + 1, Ghost(n as nat));
                proof {
                    assert(out@ == t0.push(out@.last()));
                    assert(token_reads(bytes@, out@.last(), p0));
                    lemma_token_at_intro(bytes@, out@.last(), p0, i as int);
                    lemma_read_at_push(bytes@, t0, ps, qs, out@.last(), p0, i as int);
                    ps = ps.push(p0);
                    qs = qs.push(i as int);
                    gap_from = i as int;
                    lemma_gap_empty(bytes@, i as int, out@.len() == 0 || out@.last().tok is Newline);
                }
            },
            None => {},
        }
    }
    let end = i - line_start + 1;
    let ghost before = out@;
    out.push(Spanned { tok: Tok::Eof, line, col: end, end_col: end });
    proof {
        lemma_token_at_intro(bytes@, out@.last(), i as int, i as int);
        lemma_read_at_push(bytes@, before, ps, qs, out@.last(), i as int, i as int);
        assert(read_at(bytes@, out@, ps.push(i as int), qs.push(i as int)));
        let t = out@;
        assert(t.drop_last() =~= before);
        assert forall|k: int| 0 <= k < t.len() - 1 implies !(#[trigger] t[k].tok is Newline && t[k + 1].tok is Newline) by {
            if k < t.len() - 2 {
                assert(t[k] == before[k] && t[k + 1] == before[k + 1]);
            }
        }
        assert forall|j: int, k: int| 0 <= j <= k < t.len() implies #[trigger] t[j].line <= #[trigger] t[k].line by {
            if k < t.len() - 1 {
                assert(t[j] == before[j] && t[k] == before[k]);
            } else if j < t.len() - 1 {
                assert(t[j] == before[j]);
            }
        }
        assert forall|k: int| 0 <= k < t.len() - 1 implies #[trigger] t[k].col < t[k].end_col by {
            assert(t[k] == before[k]);
        }
        assert forall|k: int| 0 <= k < t.len() - 1 implies ends_before(#[trigger] t[k], t[k + 1]) by {
            if k < t.len() - 2 {
                assert(t[k] == before[k] && t[k + 1] == before[k + 1]);
            }
        }
        assert forall|k: int| 0 <= k < t.len() implies #[trigger] t[k].col >= 1 by {
            if k < t.len() - 1 {
                assert(t[k] == before[k]);
            }
        }
        assert forall|k: int| 0 <= k < t.len() implies (#[trigger] t[k].tok matches Tok::Ident(w) ==> is_name(w@)) by {
            if k < t.len() - 1 {
                assert(t[k] == before[k]);
            }
        }
        assert forall|k: int| 0 <= k < t.len() implies (#[trigger] t[k].tok matches Tok::Str(s) ==> encode_utf8(s@).len() < n) by {
            if k < t.len() - 1 {
                assert(t[k] == before[k]);
            }
        }
    }
    Ok(out)
}

/// Two tokens are the same token: the same kind, with the same text or
/// number inside.
pub open spec fn tok_same(a: Tok, b: Tok) -> bool {
    match (a, b) {
        (Tok::Ident(x), Tok::Ident(y)) => x@ == y@,
        (Tok::Str(x), Tok::Str(y)) => x@ == y@,
        (Tok::RawStr(x), Tok::RawStr(y)) => x@ == y@,
        (Tok::Float(x), Tok::Float(y)) => x@ == y@,
        (Tok::Int(x), Tok::Int(y)) => x == y,
        (Tok::Bits(x), Tok::Bits(y)) => x == y,
        (Tok::Ident(_), _) | (_, Tok::Ident(_)) => false,
        (Tok::Str(_), _) | (_, Tok::Str(_)) => false,
        (Tok::RawStr(_), _) | (_, Tok::RawStr(_)) => false,
        (Tok::Float(_), _) | (_, Tok::Float(_)) => false,
        (Tok::Int(_), _) | (_, Tok::Int(_)) => false,
        (Tok::Bits(_), _) | (_, Tok::Bits(_)) => false,
        _ => a == b,
    }
}

/// Two tokens say the same thing at the same place.
pub open spec fn same_spanned(a: Spanned, b: Spanned) -> bool {
    tok_same(a.tok, b.tok) && a.line == b.line && a.col == b.col && a.end_col == b.end_col
}

/// A token starts at a byte that is not blank and opens no comment, and it
/// is a line break exactly where that byte is one.
proof fn lemma_token_start(b: Seq<u8>, x: Spanned, p: int)
    requires
        token_reads(b, x, p),
        0 <= p < b.len(),
    ensures
        b[p] != 32u8 && b[p] != 9u8 && b[p] != 13u8 && b[p] != 35u8,
        (b[p] == 10u8) == (x.tok is Newline),
{
    match x.tok {
        Tok::Eof => {},
        Tok::Newline => {},
        Tok::Int(_) => {},
        Tok::Float(_) => {},
        Tok::Bits(_) => {},
        Tok::Str(_) => {},
        Tok::RawStr(_) => {},
        _ => {
            if !(p < b.len() && punct_at(b, p) == Some((x.tok, x.end_col - x.col))) {
                let q = choose|q: int| #[trigger] word_run(b, p, q) && word_token(x.tok, ascii_chars(b.subrange(p, q)))
                    && x.end_col == x.col + (q - p);
                assert(word_run(b, p, q));
            }
        },
    }
}

/// A gap runs forward within the bytes.
proof fn lemma_gap_bounds(b: Seq<u8>, from: int, to: int, br: bool)
    requires
        blank_gap(b, from, to, br),
    ensures
        0 <= from <= to <= b.len(),
{
    reveal(blank_gap);
}

/// A byte that is not blank, opens no comment and lies in no comment begun
/// in the gap, and is no line break the gap may swallow, lies outside the
/// gap.
proof fn lemma_not_in_gap(b: Seq<u8>, g: int, to: int, br: bool, p: int)
    requires
        blank_gap(b, g, to, br),
        0 <= p < b.len(),
        out_of_comment(b, g, p),
        b[p] != 32u8 && b[p] != 9u8 && b[p] != 13u8 && b[p] != 35u8,
        b[p] == 10u8 ==> !br,
    ensures
        !(g <= p < to),
{
    reveal(blank_gap);
    if g <= p < to {
        assert(b[p] == 32u8 || b[p] == 9u8 || b[p] == 13u8 || (b[p] == 10u8 && br) || in_comment(b, g, p));
        let c = choose|c: int| g <= c <= p && #[trigger] b[c] == 35u8 && no_newline(b, c, p + 1);
        assert(b[p] != 10u8);
        assert(no_newline(b, c, p));
        assert(open_comment(b, g, p));
    }
}

/// Two tokens read after the same gap start at the same byte.
proof fn lemma_start_unique(b: Seq<u8>, g: int, br: bool, x1: Spanned, p1: int, x2: Spanned, p2: int)
    requires
        0 <= p1 <= b.len() && 0 <= p2 <= b.len(),
        blank_gap(b, g, p1, br),
        out_of_comment(b, g, p1),
        token_reads(b, x1, p1),
        blank_gap(b, g, p2, br),
        out_of_comment(b, g, p2),
        token_reads(b, x2, p2),
        br ==> !(x1.tok is Newline),
        br ==> !(x2.tok is Newline),
    ensures
        p1 == p2,
{
    reveal(blank_gap);
    if p1 < p2 {
        lemma_token_start(b, x1, p1);
        lemma_not_in_gap(b, g, p2, br, p1);
    } else if p2 < p1 {
        lemma_token_start(b, x2, p2);
        lemma_not_in_gap(b, g, p1, br, p2);
    }
}

/// A whole word from a byte ends at one place.
proof fn lemma_word_run_unique(b: Seq<u8>, p: int, q1: int, q2: int)
    requires
        word_run(b, p, q1),
        word_run(b, p, q2),
    ensures
        q1 == q2,
{
    if q1 < q2 {
        assert(ident_cont(b[q1]));
    } else if q2 < q1 {
        assert(ident_cont(b[q2]));
    }
}

/// Two tokens read from one byte are the same token, ending at the same
/// byte.
proof fn lemma_token_unique(b: Seq<u8>, x1: Spanned, x2: Spanned, p: int, q1: int, q2: int)
    requires
        token_at(b, x1, p, q1),
        token_at(b, x2, p, q2),
    ensures
        same_spanned(x1, x2),
        q1 == q2,
{
    reveal(token_at);
    if p == b.len() {
        assert(x1.tok is Eof);
        assert(x2.tok is Eof);
    } else {
        lemma_token_start(b, x1, p);
        lemma_token_start(b, x2, p);
        if punct_at(b, p) is Some {
            assert(!ident_start(b[p]) && !(48 <= b[p] <= 57) && b[p] != 34u8 && b[p] != 10u8);
        }
        if ident_start(b[p]) && !raw_at(b, p) {
            if !(x1.tok is Eof || x1.tok is Newline || x1.tok is Int || x1.tok is Float || x1.tok is Bits
                || x1.tok is Str || x1.tok is RawStr) && !(x2.tok is Eof || x2.tok is Newline || x2.tok is Int
                || x2.tok is Float || x2.tok is Bits || x2.tok is Str || x2.tok is RawStr) {
                let r1 = choose|q: int| #[trigger] word_run(b, p, q) && word_token(x1.tok, ascii_chars(b.subrange(p, q)))
                    && x1.end_col == x1.col + (q - p);
                let r2 = choose|q: int| #[trigger] word_run(b, p, q) && word_token(x2.tok, ascii_chars(b.subrange(p, q)))
                    && x2.end_col == x2.col + (q - p);
                lemma_word_run_unique(b, p, r1, r2);
            }
        }
    }
}

/// What a reading says of its token `k`.
proof fn lemma_read_at_index(b: Seq<u8>, t: Seq<Spanned>, ps: Seq<int>, qs: Seq<int>, k: int)
    requires
        read_at(b, t, ps, qs),
        0 <= k < t.len(),
    ensures
        ps.len() == t.len() && qs.len() == t.len(),
        token_at(b, t[k], ps[k], qs[k]),
        token_reads(b, t[k], ps[k]),
        0 <= ps[k] <= qs[k] <= b.len(),
        blank_gap(b, if k == 0 { 0 } else { qs[k - 1] }, ps[k], breaks_collapse(t, k)),
        out_of_comment(b, if k == 0 { 0 } else { qs[k - 1] }, ps[k]),
{
    reveal(read_at);
    reveal(token_at);
    let x = t[k];
    assert(token_at(b, x, ps[k], qs[k]) && blank_gap(b, if k == 0 { 0 } else { qs[k - 1] }, ps[k], breaks_collapse(t, k))
        && out_of_comment(b, if k == 0 { 0 } else { qs[k - 1] }, ps[k]));
}

/// Two readings of the same bytes agree, token for token, on their first
/// `n` tokens, where lines breaks collapse in both.
/// Two readings agree on token `k`: the same token, read from the same
/// bytes.
pub open spec fn agree_at(
    t1: Seq<Spanned>,
    ps1: Seq<int>,
    qs1: Seq<int>,
    t2: Seq<Spanned>,
    ps2: Seq<int>,
    qs2: Seq<int>,
    k: int,
) -> bool {
    ps1[k] == ps2[k] && qs1[k] == qs2[k] && same_spanned(t1[k], t2[k])
}

#[verifier::spinoff_prover]
#[verifier::rlimit(40)]
proof fn lemma_readings_agree(
    b: Seq<u8>,
    t1: Seq<Spanned>,
    ps1: Seq<int>,
    qs1: Seq<int>,
    t2: Seq<Spanned>,
    ps2: Seq<int>,
    qs2: Seq<int>,
    n: int,
)
    requires
        read_at(b, t1, ps1, qs1),
        read_at(b, t2, ps2, qs2),
        newlines_collapsed(t1),
        newlines_collapsed(t2),
        0 <= n <= t1.len(),
        n <= t2.len(),
    ensures
        forall|k: int| 0 <= k < n ==> #[trigger] agree_at(t1, ps1, qs1, t2, ps2, qs2, k),
    decreases n,
{
    if n > 0 {
        lemma_readings_agree(b, t1, ps1, qs1, t2, ps2, qs2, n - 1);
        let k = n - 1;
        lemma_read_at_index(b, t1, ps1, qs1, k);
        lemma_read_at_index(b, t2, ps2, qs2, k);
        let g = if k == 0 { 0 } else { qs1[k - 1] };
        if k > 0 {
            assert(agree_at(t1, ps1, qs1, t2, ps2, qs2, k - 1));
            assert(!(t1[k - 1].tok is Newline && t1[k].tok is Newline));
            assert(!(t2[k - 1].tok is Newline && t2[k].tok is Newline));
        }
        let br = breaks_collapse(t1, k);
        assert(br == breaks_collapse(t2, k));
        lemma_start_unique(b, g, br, t1[k], ps1[k], t2[k], ps2[k]);
        assert(ps1[k] == ps2[k]);
        lemma_token_unique(b, t1[k], t2[k], ps1[k], qs1[k], qs2[k]);
        assert(same_spanned(t1[k], t2[k]) && qs1[k] == qs2[k]);
        assert(agree_at(t1, ps1, qs1, t2, ps2, qs2, k));
    }
}

/// No token can be read from a byte where lexing stops.
proof fn lemma_stuck_reads_nothing(b: Seq<u8>, x: Spanned, i: int, q: int)
    requires
        stuck_at(b, i),
    ensures
        !token_at(b, x, i, q),
{
    reveal(token_at);
    if token_at(b, x, i, q) {
        match x.tok {
            Tok::Int(v) => {
                assert(v <= i64::MAX);
            },
            Tok::Str(_) => {
                if !block_at(b, i) {
                    assert(string_body(b, i + 1) is Some);
                }
            },
            _ => {
                if !(x.tok is Eof || x.tok is Newline || x.tok is Float || x.tok is Bits || x.tok is RawStr) {
                    if !(i < b.len() && punct_at(b, i) == Some((x.tok, x.end_col - x.col))) {
                        let w = choose|w: int| #[trigger] word_run(b, i, w) && word_token(x.tok, ascii_chars(b.subrange(i, w)))
                            && x.end_col == x.col + (w - i);
                        assert(word_run(b, i, w));
                    }
                }
            },
        }
    }
}

/// A text reads as tokens in one way at most: two readings of the same
/// bytes, each ending at the end of the text with line breaks collapsed,
/// are the same tokens at the same places.
pub proof fn law_one_reading(b: Seq<u8>, t1: Seq<Spanned>, t2: Seq<Spanned>)
    requires
        read_from(b, t1) && well_lexed(t1),
        read_from(b, t2) && well_lexed(t2),
    ensures
        t1.len() == t2.len(),
        forall|k: int| 0 <= k < t1.len() ==> #[trigger] same_spanned(t1[k], t2[k]),
{
    let (ps1, qs1) = choose|ps: Seq<int>, qs: Seq<int>| #[trigger] read_at(b, t1, ps, qs);
    let (ps2, qs2) = choose|ps: Seq<int>, qs: Seq<int>| #[trigger] read_at(b, t2, ps, qs);
    let n = if t1.len() <= t2.len() { t1.len() as int } else { t2.len() as int };
    lemma_readings_agree(b, t1, ps1, qs1, t2, ps2, qs2, n);
    if t1.len() < t2.len() {
        assert(agree_at(t1, ps1, qs1, t2, ps2, qs2, t1.len() - 1));
        assert(t2[t1.len() - 1].tok is Eof);
    } else if t2.len() < t1.len() {
        assert(agree_at(t1, ps1, qs1, t2, ps2, qs2, t2.len() - 1));
        assert(t1[t2.len() - 1].tok is Eof);
    }
    assert forall|k: int| 0 <= k < t1.len() implies #[trigger] same_spanned(t1[k], t2[k]) by {
        assert(agree_at(t1, ps1, qs1, t2, ps2, qs2, k));
    }
}

/// Where lexing stops, the text has no reading at all: whatever the tokens
/// before it, none can be read from the byte it stops at.
#[verifier::spinoff_prover]
#[verifier::rlimit(80)]
pub proof fn law_stuck_text_has_no_reading(b: Seq<u8>, t: Seq<Spanned>, ps: Seq<int>, qs: Seq<int>, i: int, t2: Seq<Spanned>)
    requires
        stops_at(b, t, ps, qs, i),
    ensures
        !(read_from(b, t2) && well_lexed(t2)),
{
    if read_from(b, t2) && well_lexed(t2) {
        let (ps2, qs2) = choose|ps: Seq<int>, qs: Seq<int>| #[trigger] read_at(b, t2, ps, qs);
        let n = if t.len() <= t2.len() { t.len() as int } else { t2.len() as int };
        lemma_readings_agree(b, t, ps, qs, t2, ps2, qs2, n);
        if t2.len() <= t.len() {
            assert(agree_at(t, ps, qs, t2, ps2, qs2, t2.len() - 1));
            assert(t[t2.len() - 1].tok is Eof);
            assert(false);
        } else {
            let k = t.len() as int;
            lemma_read_at_index(b, t2, ps2, qs2, k);
            if k > 0 {
                lemma_read_at_index(b, t, ps, qs, k - 1);
                assert(agree_at(t, ps, qs, t2, ps2, qs2, k - 1));
                assert(!(t2[k - 1].tok is Newline && t2[k].tok is Newline));
            }
            let g = if k == 0 { 0 } else { qs[k - 1] };
            let br = t.len() == 0 || t.last().tok is Newline;
            assert(br == breaks_collapse(t2, k));
            let p2 = ps2[k];
            assert(g == (if t.len() == 0 { 0 } else { qs.last() }));
            assert(g == (if k == 0 { 0 } else { qs2[k - 1] }));
            assert(blank_gap(b, g, i, br) && out_of_comment(b, g, i));
            assert(blank_gap(b, g, p2, br) && out_of_comment(b, g, p2));
            assert(0 <= i < b.len());
            lemma_gap_bounds(b, g, i, br);
            lemma_gap_bounds(b, g, p2, br);
            if p2 < i {
                lemma_token_start(b, t2[k], p2);
                assert(br ==> !(t2[k].tok is Newline));
                lemma_not_in_gap(b, g, i, br, p2);
            } else if i < p2 {
                lemma_not_in_gap(b, g, p2, br, i);
            }
            assert(p2 == i);
            lemma_stuck_reads_nothing(b, t2[k], i, qs2[k]);
            assert(false);
        }
    }
}

} // verus!
