//! Recursive-descent parser: `.oir` text -> `Module`.
//!
//! Grammar (v0):
//! ```text
//! module  := "module" IDENT NEWLINE item*
//! sub     := "sub" IDENT params? (":" type)? conv? NEWLINE stmt* "end" NEWLINE
//! conv    := "stdcall" | "cdecl" | "system"
//! params  := "(" (param ("," param)*)? ")"
//! param   := IDENT ":" type ("=" expr)?
//! stmt    := let | assign | call | indirect | return | for | break | continue
//!          | incdec | check
//! assign  := lvalue asgop expr NEWLINE
//! asgop   := "=" | "+=" | "-=" | "*=" | "/=" | "mod=" | "&="
//! lvalue  := IDENT ("[" expr "]" | "." IDENT)*
//! let     := ("let" | "var") IDENT (":" type)? ("=" expr)? NEWLINE
//! call    := "call" IDENT "(" args? ")" NEWLINE
//! record  := "record" IDENT NEWLINE (IDENT ":" type NEWLINE)+ "end" NEWLINE
//! type    := IDENT ("[" "]" | "{" "}")?
//! expr    := ifexpr | or ("otherwise" or)?
//! or      := and ("or" and)*
//! and     := not_ ("and" not_)*
//! not_    := "not" not_ | cmp
//! cmp     := bor (cmpop bor (cmpop bor)?)? | bor ("not"? "in") bor
//! bor     := bxor ("bor" bxor)*
//! bxor    := band ("bxor" band)*
//! band    := shift ("band" shift)*
//! shift   := sum (("shl" | "shr" | "ushr") sum)*
//! sum     := term (("+" | "-") term)*
//! term    := factor (("*" | "/" | "%") factor)*
//! factor  := ("-" | "bnot")? postfix
//! postfix := primary ("[" expr "]" | "." IDENT | "." IDENT "(" args? ")")*
//! ```
//!
//! Every parsing method leaves the cursor on a token of the stream, never
//! moves it backwards, and moves it forwards whenever it succeeds; that is
//! what makes each loop below end.

use vstd::prelude::*;
use vstd::string::StringSliceAdditionalSpecFns;
use vstd::utf8::{decode_utf8, encode_utf8, valid_utf8};
use crate::lexer::{is_name, lex, lex_bytes, newlines_in, punct_at, tok_same, read_from, stops_at, strs_within, stuck_msg, well_lexed, Spanned, Tok};
use crate::sema::{bits_bare_type, bits_value, spec_bits_value};
use crate::text::{chars_debug, dec, dec_int, lemma_ascii_prefix, lemma_encode_utf8_append, lemma_encode_utf8_empty, push_bytes, push_char, push_dec, push_dec_i64, push_str, push_str_debug, slice_range, str_eq, text, trim_text, trimmed};
use crate::types::{
    c_representable, carray, expr_dup, same_expr, ffi_param, intern, BinOp, BitOp, CallConv, CmpOp, Component, ConstDef, DllDecl, Elem, Expr, Form,
    GlobalVar, Ident, Item, LogicalOp, Module, RecordDef, Span, Stmt, StmtKind, Sub, Target, Ty,
    binop_char, bit_word, cmp_spelling, spec_call_conv_parse, spec_from_keyword, ty_elem,
};

verus! {

#[derive(Debug, Clone, PartialEq)]
pub struct ParseError {
    pub line: usize,
    pub msg: String,
}

impl ParseError {
    /// The error as a diagnostic reads: `parse error (line N): message`.
    pub fn message(&self) -> (r: String)
        ensures
            r@ == "parse error (line "@ + dec(self.line as nat) + "): "@ + self.msg@,
    {
        let mut out = text("parse error (line ");
        push_dec(&mut out, self.line as u64);
        push_str(&mut out, "): ");
        push_str(&mut out, self.msg.as_str());
        out
    }
}

/// What a parse may leave out.
#[derive(Debug, Clone, Copy, PartialEq, Eq)]
pub struct ParseOptions {
    /// Whether `assert` produces a statement. `false` drops each one where it
    /// is written — the condition is still parsed.
    pub asserts: bool,
}

impl Default for ParseOptions {
    /// Asserts on.
    fn default() -> (r: ParseOptions)
        ensures
            r.asserts,
    {
        ParseOptions { asserts: true }
    }
}

/// The arithmetic operator a token stands for, if it stands for one.
pub open spec fn bin_op_of(t: Tok) -> Option<BinOp> {
    match t {
        Tok::Plus => Some(BinOp::Add),
        Tok::Minus => Some(BinOp::Sub),
        Tok::Star => Some(BinOp::Mul),
        Tok::Slash => Some(BinOp::Div),
        Tok::Percent => Some(BinOp::Rem),
        _ => None,
    }
}

/// The operator binds as tightly as `*`.
pub open spec fn multiplicative(op: BinOp) -> bool {
    op is Mul || op is Div || op is Rem
}

/// The comparison operator a token stands for, if it stands for one.
pub open spec fn cmp_op_of(t: Tok) -> Option<CmpOp> {
    match t {
        Tok::Eq => Some(CmpOp::Eq),
        Tok::Ne => Some(CmpOp::Ne),
        Tok::Lt => Some(CmpOp::Lt),
        Tok::Le => Some(CmpOp::Le),
        Tok::Gt => Some(CmpOp::Gt),
        Tok::Ge => Some(CmpOp::Ge),
        _ => None,
    }
}

/// No `+ - * / %` is read from the token: it ends an operand of a sum.
pub open spec fn ends_sum(t: Tok) -> bool {
    bin_op_of(t) is None
}

/// Nor a shift word: it ends an operand of a shift.
pub open spec fn ends_shift(t: Tok) -> bool {
    ends_sum(t) && !word_tok(t, "shl"@) && !word_tok(t, "shr"@) && !word_tok(t, "ushr"@)
}

/// Nor `band`.
pub open spec fn ends_band(t: Tok) -> bool {
    ends_shift(t) && !word_tok(t, "band"@)
}

/// Nor `bxor`.
pub open spec fn ends_bxor(t: Tok) -> bool {
    ends_band(t) && !word_tok(t, "bxor"@)
}

/// Nor `bor`.
pub open spec fn ends_bor(t: Tok) -> bool {
    ends_bxor(t) && !word_tok(t, "bor"@)
}

/// Nor a comparison, `in` or `not`: it ends an operand of a comparison.
pub open spec fn ends_cmp(t: Tok) -> bool {
    ends_bor(t) && cmp_op_of(t) is None && !word_tok(t, "in"@) && !(t is Not)
}

/// Nor `and`.
pub open spec fn ends_and(t: Tok) -> bool {
    ends_cmp(t) && !(t is And)
}

/// Nor `or`.
pub open spec fn ends_or(t: Tok) -> bool {
    ends_and(t) && !(t is Or)
}

/// The bytes of `b` from `i` on are the characters of `w`, one byte each.
pub open spec fn bytes_spell(b: Seq<u8>, i: int, w: Seq<char>) -> bool {
    &&& 0 <= i && i + w.len() <= b.len()
    &&& forall|k: int| 0 <= k < w.len() ==> #[trigger] b[i + k] as u32 == w[k] as u32
}

/// A comparison is read from the characters that write it: where the lexer
/// reads a comparison token, the operator the parser makes of it is spelled
/// by exactly the bytes the token took.
pub proof fn law_comparisons_are_what_they_spell(b: Seq<u8>, i: int, t: Tok, w: int, op: CmpOp)
    requires
        0 <= i < b.len(),
        punct_at(b, i) == Some((t, w)),
        cmp_op_of(t) == Some(op),
    ensures
        w == cmp_spelling(op).len(),
        bytes_spell(b, i, cmp_spelling(op)),
{
    reveal_strlit("=");
    reveal_strlit("<>");
    reveal_strlit("<");
    reveal_strlit("<=");
    reveal_strlit(">");
    reveal_strlit(">=");
}

/// An arithmetic operator is read from the character that writes it: where
/// the lexer reads a one-byte operator token from a byte, the operator the
/// parser makes of that token is written with that very byte, so each of
/// `+ - * / %` gives its own operator.
pub proof fn law_operators_are_what_they_spell(b: Seq<u8>, i: int, t: Tok, w: int, op: BinOp)
    requires
        0 <= i < b.len(),
        punct_at(b, i) == Some((t, w)),
        bin_op_of(t) == Some(op),
    ensures
        w == 1,
        binop_char(op) as u32 == b[i] as u32,
{
}

/// What an operand read on its own gives: the literal it spells, or the
/// variable it names.
pub open spec fn operand_reads(t: Tok, e: Expr) -> bool {
    leaf_reads(t, e) || (t matches Tok::Ident(x) && e matches Expr::Var(y) && y@ == x@)
}

/// The token is read as a primary on its own: a truth value, a number, a
/// bit pattern or a raw text literal.
pub open spec fn is_leaf(t: Tok) -> bool {
    t is True || t is False || t is Int || t is Bits || t is Float || t is RawStr
}

/// `e` is what the single token `t` reads as.
pub open spec fn leaf_reads(t: Tok, e: Expr) -> bool {
    match t {
        Tok::True => e == Expr::BoolLit(true),
        Tok::False => e == Expr::BoolLit(false),
        Tok::Int(v) => e == Expr::IntLit(v),
        Tok::Bits(v) => e == Expr::BitsLit(v),
        Tok::Float(x) => e matches Expr::DoubleLit(y) && y@ == x@,
        Tok::RawStr(x) => e matches Expr::TextLit(y) && y@ == x@,
        _ => false,
    }
}

/// An expression's first operand can begin with token `t`: a list, a
/// dictionary, a call through a pointer, a literal, a name or a bracket.
pub open spec fn begins_primary(t: Tok) -> bool {
    is_leaf(t) || t is LBracket || t is LBrace || t is Call || t is Str || t is Ident || t is LParen
}

/// A copy of a token.
pub fn tok_dup(t: &Tok) -> (r: Tok)
    ensures
        tok_same(r, *t),
{
    match t {
        Tok::Ident(s) => Tok::Ident(text(s.as_str())),
        Tok::Str(s) => Tok::Str(text(s.as_str())),
        Tok::RawStr(s) => Tok::RawStr(text(s.as_str())),
        Tok::Float(s) => Tok::Float(text(s.as_str())),
        Tok::Int(v) => Tok::Int(*v),
        Tok::Bits(v) => Tok::Bits(*v),
        Tok::Module => Tok::Module,
        Tok::Sub => Tok::Sub,
        Tok::End => Tok::End,
        Tok::Let => Tok::Let,
        Tok::Var => Tok::Var,
        Tok::Call => Tok::Call,
        Tok::If => Tok::If,
        Tok::Else => Tok::Else,
        Tok::While => Tok::While,
        Tok::For => Tok::For,
        Tok::Break => Tok::Break,
        Tok::Continue => Tok::Continue,
        Tok::And => Tok::And,
        Tok::Or => Tok::Or,
        Tok::Not => Tok::Not,
        Tok::BNot => Tok::BNot,
        Tok::True => Tok::True,
        Tok::False => Tok::False,
        Tok::Use => Tok::Use,
        Tok::Form => Tok::Form,
        Tok::On => Tok::On,
        Tok::Return => Tok::Return,
        Tok::LParen => Tok::LParen,
        Tok::RParen => Tok::RParen,
        Tok::LBracket => Tok::LBracket,
        Tok::RBracket => Tok::RBracket,
        Tok::LBrace => Tok::LBrace,
        Tok::RBrace => Tok::RBrace,
        Tok::Comma => Tok::Comma,
        Tok::Colon => Tok::Colon,
        Tok::Dot => Tok::Dot,
        Tok::DotDot => Tok::DotDot,
        Tok::Eq => Tok::Eq,
        Tok::Plus => Tok::Plus,
        Tok::Minus => Tok::Minus,
        Tok::Star => Tok::Star,
        Tok::Slash => Tok::Slash,
        Tok::Percent => Tok::Percent,
        Tok::PlusEq => Tok::PlusEq,
        Tok::MinusEq => Tok::MinusEq,
        Tok::StarEq => Tok::StarEq,
        Tok::SlashEq => Tok::SlashEq,
        Tok::AmpEq => Tok::AmpEq,
        Tok::Lt => Tok::Lt,
        Tok::Le => Tok::Le,
        Tok::Gt => Tok::Gt,
        Tok::Ge => Tok::Ge,
        Tok::Ne => Tok::Ne,
        Tok::Newline => Tok::Newline,
        Tok::Eof => Tok::Eof,
    }
}

/// Whether two tokens are the same kind of token (the payload is not
/// compared). Used with the payload-free tokens a parse expects.
pub fn same_kind(a: &Tok, b: &Tok) -> (r: bool)
    ensures
        r == (tok_code_of(*a) == tok_code_of(*b)),
        r ==> (a is Eof <==> b is Eof),
        (b is Eof && r) ==> a is Eof,
{
    tok_code(a) == tok_code(b)
}

/// A number for each kind of token, the same for two tokens exactly when
/// they are of one kind.
pub open spec fn tok_code_of(t: Tok) -> u8 {
    match t {
        Tok::Module => 0, Tok::Sub => 1, Tok::End => 2, Tok::Let => 3, Tok::Var => 4,
        Tok::Call => 5, Tok::If => 6, Tok::Else => 7, Tok::While => 8, Tok::For => 9,
        Tok::Break => 10, Tok::Continue => 11, Tok::And => 12, Tok::Or => 13, Tok::Not => 14,
        Tok::BNot => 15, Tok::True => 16, Tok::False => 17, Tok::Use => 18, Tok::Form => 19,
        Tok::On => 20, Tok::Return => 21, Tok::Ident(_) => 22, Tok::Int(_) => 23,
        Tok::Bits(_) => 24, Tok::Float(_) => 25, Tok::Str(_) => 26, Tok::LParen => 27,
        Tok::RParen => 28, Tok::LBracket => 29, Tok::RBracket => 30, Tok::LBrace => 31,
        Tok::RBrace => 32, Tok::Comma => 33, Tok::Colon => 34, Tok::Dot => 35, Tok::DotDot => 36,
        Tok::Eq => 37, Tok::Plus => 38, Tok::Minus => 39, Tok::Star => 40, Tok::Slash => 41,
        Tok::Percent => 42, Tok::PlusEq => 43, Tok::MinusEq => 44, Tok::StarEq => 45,
        Tok::SlashEq => 46, Tok::AmpEq => 47, Tok::Lt => 48, Tok::Le => 49, Tok::Gt => 50,
        Tok::Ge => 51, Tok::Ne => 52, Tok::Newline => 53, Tok::RawStr(_) => 54, Tok::Eof => 63,
    }
}

fn tok_code(t: &Tok) -> (r: u8)
    ensures
        r == tok_code_of(*t),
        (r == 63) <==> (t is Eof),
{
    match t {
        Tok::Module => 0, Tok::Sub => 1, Tok::End => 2, Tok::Let => 3, Tok::Var => 4,
        Tok::Call => 5, Tok::If => 6, Tok::Else => 7, Tok::While => 8, Tok::For => 9,
        Tok::Break => 10, Tok::Continue => 11, Tok::And => 12, Tok::Or => 13, Tok::Not => 14,
        Tok::BNot => 15, Tok::True => 16, Tok::False => 17, Tok::Use => 18, Tok::Form => 19,
        Tok::On => 20, Tok::Return => 21, Tok::Ident(_) => 22, Tok::Int(_) => 23,
        Tok::Bits(_) => 24, Tok::Float(_) => 25, Tok::Str(_) => 26, Tok::LParen => 27,
        Tok::RParen => 28, Tok::LBracket => 29, Tok::RBracket => 30, Tok::LBrace => 31,
        Tok::RBrace => 32, Tok::Comma => 33, Tok::Colon => 34, Tok::Dot => 35, Tok::DotDot => 36,
        Tok::Eq => 37, Tok::Plus => 38, Tok::Minus => 39, Tok::Star => 40, Tok::Slash => 41,
        Tok::Percent => 42, Tok::PlusEq => 43, Tok::MinusEq => 44, Tok::StarEq => 45,
        Tok::SlashEq => 46, Tok::AmpEq => 47, Tok::Lt => 48, Tok::Le => 49, Tok::Gt => 50,
        Tok::Ge => 51, Tok::Ne => 52, Tok::Newline => 53, Tok::RawStr(_) => 54, Tok::Eof => 63,
    }
}

/// The name of a token kind, as `{:?}` writes it.
pub open spec fn tok_name_of(t: Tok) -> &'static str {
    match t {
        Tok::Module => "Module", Tok::Sub => "Sub", Tok::End => "End", Tok::Let => "Let",
        Tok::Var => "Var", Tok::Call => "Call", Tok::If => "If", Tok::Else => "Else",
        Tok::While => "While", Tok::For => "For", Tok::Break => "Break",
        Tok::Continue => "Continue", Tok::And => "And", Tok::Or => "Or", Tok::Not => "Not",
        Tok::BNot => "BNot", Tok::True => "True", Tok::False => "False", Tok::Use => "Use",
        Tok::Form => "Form", Tok::On => "On", Tok::Return => "Return", Tok::Ident(_) => "Ident",
        Tok::Int(_) => "Int", Tok::Bits(_) => "Bits", Tok::Float(_) => "Float", Tok::Str(_) => "Str",
        Tok::RawStr(_) => "RawStr",
        Tok::LParen => "LParen", Tok::RParen => "RParen", Tok::LBracket => "LBracket",
        Tok::RBracket => "RBracket", Tok::LBrace => "LBrace", Tok::RBrace => "RBrace",
        Tok::Comma => "Comma", Tok::Colon => "Colon", Tok::Dot => "Dot", Tok::DotDot => "DotDot",
        Tok::Eq => "Eq", Tok::Plus => "Plus", Tok::Minus => "Minus", Tok::Star => "Star",
        Tok::Slash => "Slash", Tok::Percent => "Percent", Tok::PlusEq => "PlusEq",
        Tok::MinusEq => "MinusEq", Tok::StarEq => "StarEq", Tok::SlashEq => "SlashEq",
        Tok::AmpEq => "AmpEq", Tok::Lt => "Lt", Tok::Le => "Le", Tok::Gt => "Gt", Tok::Ge => "Ge",
        Tok::Ne => "Ne", Tok::Newline => "Newline", Tok::Eof => "Eof",
    }
}

/// The name of a token kind, as `{:?}` writes it.
fn tok_name(t: &Tok) -> (r: &'static str)
    ensures
        r == tok_name_of(*t),
{
    match t {
        Tok::Module => "Module", Tok::Sub => "Sub", Tok::End => "End", Tok::Let => "Let",
        Tok::Var => "Var", Tok::Call => "Call", Tok::If => "If", Tok::Else => "Else",
        Tok::While => "While", Tok::For => "For", Tok::Break => "Break",
        Tok::Continue => "Continue", Tok::And => "And", Tok::Or => "Or", Tok::Not => "Not",
        Tok::BNot => "BNot", Tok::True => "True", Tok::False => "False", Tok::Use => "Use",
        Tok::Form => "Form", Tok::On => "On", Tok::Return => "Return", Tok::Ident(_) => "Ident",
        Tok::Int(_) => "Int", Tok::Bits(_) => "Bits", Tok::Float(_) => "Float", Tok::Str(_) => "Str",
        Tok::RawStr(_) => "RawStr",
        Tok::LParen => "LParen", Tok::RParen => "RParen", Tok::LBracket => "LBracket",
        Tok::RBracket => "RBracket", Tok::LBrace => "LBrace", Tok::RBrace => "RBrace",
        Tok::Comma => "Comma", Tok::Colon => "Colon", Tok::Dot => "Dot", Tok::DotDot => "DotDot",
        Tok::Eq => "Eq", Tok::Plus => "Plus", Tok::Minus => "Minus", Tok::Star => "Star",
        Tok::Slash => "Slash", Tok::Percent => "Percent", Tok::PlusEq => "PlusEq",
        Tok::MinusEq => "MinusEq", Tok::StarEq => "StarEq", Tok::SlashEq => "SlashEq",
        Tok::AmpEq => "AmpEq", Tok::Lt => "Lt", Tok::Le => "Le", Tok::Gt => "Gt", Tok::Ge => "Ge",
        Tok::Ne => "Ne", Tok::Newline => "Newline", Tok::Eof => "Eof",
    }
}

/// A token as `{:?}` shows it: the kind, and its payload in parentheses
/// (`Ident("x")`, `Int(5)`).
pub open spec fn tok_debug(t: Tok) -> Seq<char> {
    tok_name_of(t)@ + match t {
        Tok::Ident(w) => seq!['('] + (seq!['"'] + chars_debug(w@) + seq!['"']) + seq![')'],
        Tok::Str(w) => seq!['('] + (seq!['"'] + chars_debug(w@) + seq!['"']) + seq![')'],
        Tok::RawStr(w) => seq!['('] + (seq!['"'] + chars_debug(w@) + seq!['"']) + seq![')'],
        Tok::Float(w) => seq!['('] + w@ + seq![')'],
        Tok::Int(v) => seq!['('] + dec_int(v as int) + seq![')'],
        Tok::Bits(v) => seq!['('] + dec(v as nat) + seq![')'],
        _ => Seq::empty(),
    }
}

/// Append a token as `{:?}` shows it: the kind, and its payload in
/// parentheses (`Ident("x")`, `Int(5)`).
pub(crate) fn push_tok_debug(s: &mut String, t: &Tok)
    ensures
        final(s)@ == old(s)@ + tok_debug(*t),
{
    push_str(s, tok_name(t));
    match t {
        Tok::Ident(w) | Tok::Str(w) | Tok::RawStr(w) => {
            push_char(s, '(');
            push_str_debug(s, w.as_str());
            push_char(s, ')');
        },
        Tok::Float(w) => {
            push_char(s, '(');
            push_str(s, w.as_str());
            push_char(s, ')');
        },
        Tok::Int(v) => {
            push_char(s, '(');
            push_dec_i64(s, *v);
            push_char(s, ')');
        },
        Tok::Bits(v) => {
            push_char(s, '(');
            push_dec(s, *v);
            push_char(s, ')');
        },
        _ => {},
    }
    proof {
        assert(s@ =~= old(s)@ + tok_debug(*t));
    }
}

/// `a`, then `b`.
fn cat2(a: &str, b: &str) -> (r: String)
    ensures
        r@ == a@ + b@,
{
    let mut s = text(a);
    push_str(&mut s, b);
    s
}

/// `a`, `b`, then `c`.
fn cat3(a: &str, b: &str, c: &str) -> (r: String)
    ensures
        r@ == a@ + b@ + c@,
{
    let mut s = text(a);
    push_str(&mut s, b);
    push_str(&mut s, c);
    s
}

/// `a`, the token as `{:?}` shows it, then `b`.
fn with_tok(a: &str, t: &Tok, b: &str) -> (r: String)
    ensures
        r@ == a@ + tok_debug(*t) + b@,
{
    let mut s = text(a);
    push_tok_debug(&mut s, t);
    push_str(&mut s, b);
    s
}

/// The parts joined with `sep` between them.
pub open spec fn joined(parts: Seq<Seq<char>>, sep: Seq<char>) -> Seq<char>
    decreases parts.len(),
{
    if parts.len() == 0 {
        Seq::empty()
    } else if parts.len() == 1 {
        parts[0]
    } else {
        joined(parts.drop_last(), sep) + sep + parts.last()
    }
}

/// The text of each string.
pub open spec fn string_views(v: Seq<String>) -> Seq<Seq<char>> {
    v.map_values(|w: String| w@)
}

/// The words joined with `sep` between them.
fn join(words: &Vec<String>, sep: &str) -> (r: String)
    ensures
        r@ == joined(string_views(words@), sep@),
{
    let mut s = String::new();
    let mut i: usize = 0;
    while i < words.len()
        invariant
            i <= words@.len(),
            s@ == joined(string_views(words@).take(i as int), sep@),
        decreases words@.len() - i,
    {
        proof {
            let next = string_views(words@).take(i + 1);
            assert(next.drop_last() =~= string_views(words@).take(i as int));
        }
        if i > 0 {
            push_str(&mut s, sep);
        }
        push_str(&mut s, words[i].as_str());
        proof {
            let next = string_views(words@).take(i + 1);
            if i == 0 {
                assert(s@ =~= next[0]);
            } else {
                assert(s@ =~= joined(next.drop_last(), sep@) + sep@ + next.last());
            }
        }
        i = i + 1;
    }
    proof {
        assert(string_views(words@).take(i as int) =~= string_views(words@));
    }
    s
}


/// The words that are operators after an operand.
pub open spec fn infix_word(w: Seq<char>) -> bool {
    w == "band"@ || w == "bor"@ || w == "bxor"@ || w == "shl"@ || w == "shr"@ || w == "ushr"@
        || w == "in"@ || w == "otherwise"@ || w == "then"@ || w == "mod"@ || w == "to"@
        || w == "step"@ || w == "at"@ || w == "each"@ || w == "of"@ || w == "from"@ || w == "as"@
}

/// Whether the word is one of those that are operators after an operand.
fn is_infix_word(w: &str) -> (r: bool)
    ensures
        r == infix_word(w@),
{
    str_eq(w, "band") || str_eq(w, "bor") || str_eq(w, "bxor") || str_eq(w, "shl")
        || str_eq(w, "shr") || str_eq(w, "ushr") || str_eq(w, "in") || str_eq(w, "otherwise")
        || str_eq(w, "then") || str_eq(w, "mod") || str_eq(w, "to") || str_eq(w, "step")
        || str_eq(w, "at") || str_eq(w, "each") || str_eq(w, "of") || str_eq(w, "from")
        || str_eq(w, "as")
}

/// The token is the identifier `w`.
pub open spec fn word_tok(t: Tok, w: Seq<char>) -> bool {
    t matches Tok::Ident(x) && x@ == w
}

/// The token is an identifier that is not an operator word.
pub open spec fn plain_ident_tok(t: Tok) -> bool {
    t matches Tok::Ident(x) && !infix_word(x@)
}

/// Whether a token is the identifier `w`.
fn is_word(t: &Tok, w: &str) -> (r: bool)
    ensures
        r == word_tok(*t, w@),
        r ==> t is Ident,
{
    match t {
        Tok::Ident(x) => str_eq(x.as_str(), w),
        _ => false,
    }
}

/// Whether `v` is among the words.
fn contains_word(words: &Vec<String>, v: &str) -> (r: bool)
    ensures
        r == exists|i: int| 0 <= i < words@.len() && #[trigger] words@[i]@ == v@,
{
    let mut i: usize = 0;
    while i < words.len()
        invariant
            i <= words@.len(),
            forall|k: int| 0 <= k < i ==> #[trigger] words@[k]@ != v@,
        decreases words@.len() - i,
    {
        if str_eq(words[i].as_str(), v) {
            return true;
        }
        i = i + 1;
    }
    false
}

/// `line` without one trailing `\r`.
pub open spec fn drop_cr(line: Seq<u8>) -> Seq<u8> {
    if line.len() > 0 && line.last() == 13u8 { line.drop_last() } else { line }
}

/// Where the line that byte `i` falls in begins: just past the last `\n`
/// before `i`.
pub open spec fn line_begin(b: Seq<u8>, i: int) -> int
    decreases i,
{
    if i <= 0 {
        0
    } else if b[i - 1] == 10u8 {
        i
    } else {
        line_begin(b, i - 1)
    }
}

/// The lines that a `\n` closes within `b[..i]`.
pub open spec fn closed_lines(b: Seq<u8>, i: int) -> Seq<Seq<u8>>
    decreases i,
{
    if i <= 0 {
        Seq::empty()
    } else if b[i - 1] == 10u8 {
        closed_lines(b, i - 1).push(drop_cr(b.subrange(line_begin(b, i - 1), i - 1)))
    } else {
        closed_lines(b, i - 1)
    }
}

/// The lines of `b` as `str::lines` gives them: split at each `\n`, one
/// trailing `\r` dropped from each, and no empty line after a final `\n`.
pub open spec fn source_lines(b: Seq<u8>) -> Seq<Seq<u8>> {
    let last = line_begin(b, b.len() as int);
    if last < b.len() {
        closed_lines(b, b.len() as int).push(drop_cr(b.subrange(last, b.len() as int)))
    } else {
        closed_lines(b, b.len() as int)
    }
}

/// The source split into lines, as bytes, the way `str::lines` splits it: at
/// each `\n`, with one trailing `\r` dropped from a line, and no final empty
/// line after a trailing newline.
fn split_lines(b: &[u8]) -> (r: Vec<Vec<u8>>)
    ensures
        r@.len() == source_lines(b@).len(),
        forall|k: int| 0 <= k < r@.len() ==> #[trigger] r@[k]@ == source_lines(b@)[k],
{
    let mut out: Vec<Vec<u8>> = Vec::new();
    let n = b.len();
    let mut start: usize = 0;
    let mut i: usize = 0;
    while i < n
        invariant
            start <= i <= n == b@.len(),
            start == line_begin(b@, i as int),
            out@.len() == closed_lines(b@, i as int).len(),
            forall|k: int| 0 <= k < out@.len() ==> #[trigger] out@[k]@ == closed_lines(b@, i as int)[k],
        decreases n - i,
    {
        if b[i] == 10u8 {
            let end = if i > start && b[i - 1] == 13u8 { i - 1 } else { i };
            let line = slice_range(b, start, end);
            assert(line@ == drop_cr(b@.subrange(start as int, i as int)));
            out.push(line);
            start = i + 1;
        }
        i = i + 1;
    }
    if start < n {
        let end = if n > start && b[n - 1] == 13u8 { n - 1 } else { n };
        let line = slice_range(b, start, end);
        assert(line@ == drop_cr(b@.subrange(start as int, n as int)));
        out.push(line);
    }
    out
}

/// An enum table by its views: each name with its members.
pub open spec fn enums_view(v: Seq<(String, Vec<String>)>) -> Seq<(Seq<char>, Seq<Seq<char>>)> {
    v.map_values(|p: (String, Vec<String>)| (p.0@, string_views(p.1@)))
}

/// The table `map` with the members of `name` set: its entry for the name
/// replaced, or a new entry at the end when it has none.
pub open spec fn enum_set(map: Seq<(Seq<char>, Seq<Seq<char>>)>, name: Seq<char>, members: Seq<Seq<char>>)
    -> Seq<(Seq<char>, Seq<Seq<char>>)>
{
    if exists|i: int| 0 <= i < map.len() && (#[trigger] map[i]).0 == name {
        let i = choose|i: int| 0 <= i < map.len() && (#[trigger] map[i]).0 == name;
        map.update(i, (name, members))
    } else {
        map.push((name, members))
    }
}

/// Token `k` begins an enum header: `enum` first on its line, a name, and
/// the end of the line.
pub open spec fn enum_header(toks: Seq<Spanned>, k: int) -> bool {
    &&& 0 <= k
    &&& toks.len() - k > 2
    &&& word_tok(toks[k].tok, "enum"@)
    &&& (k == 0 || toks[k - 1].tok is Newline)
    &&& toks[k + 2].tok is Newline
}

/// The member names from token `j` on: identifiers, with commas and
/// newlines between them, up to the first other token.
pub open spec fn enum_members(toks: Seq<Spanned>, j: int) -> Seq<Seq<char>>
    decreases toks.len() - j,
{
    if j < 0 || j >= toks.len() {
        Seq::empty()
    } else {
        match toks[j].tok {
            Tok::Ident(m) => seq![m@] + enum_members(toks, j + 1),
            Tok::Comma | Tok::Newline => enum_members(toks, j + 1),
            _ => Seq::empty(),
        }
    }
}

/// The enums that the headers among tokens `..i` declare, in the order
/// first declared, a later declaration of a name replacing its members.
pub open spec fn enums_declared(toks: Seq<Spanned>, i: int) -> Seq<(Seq<char>, Seq<Seq<char>>)>
    decreases i,
{
    if i <= 0 {
        Seq::empty()
    } else {
        let prev = enums_declared(toks, i - 1);
        let k = i - 1;
        if enum_header(toks, k) {
            match toks[k + 1].tok {
                Tok::Ident(name) => enum_set(prev, name@, enum_members(toks, k + 3)),
                _ => prev,
            }
        } else {
            prev
        }
    }
}

/// What `enum_insert` does to a table with distinct names, seen by views.
proof fn lemma_enum_insert_view(
    before: Seq<(String, Vec<String>)>,
    after: Seq<(String, Vec<String>)>,
    name: String,
    members: Vec<String>,
)
    requires
        distinct_names(before),
        forall|i: int| #[trigger] first_entry(before, name@, i) ==> after == before.update(i, (name, members)),
        (forall|i: int| 0 <= i < before.len() ==> #[trigger] before[i].0@ != name@) ==> after == before.push((name, members)),
    ensures
        distinct_names(after),
        enums_view(after) == enum_set(enums_view(before), name@, string_views(members@)),
{
    let bv = enums_view(before);
    let entry = (name@, string_views(members@));
    if exists|i: int| 0 <= i < bv.len() && (#[trigger] bv[i]).0 == name@ {
        let i = choose|i: int| 0 <= i < bv.len() && (#[trigger] bv[i]).0 == name@;
        assert(before[i].0@ == name@);
        assert(first_entry(before, name@, i));
        assert(after == before.update(i, (name, members)));
        assert(enums_view(after) =~= bv.update(i, entry));
    } else {
        assert forall|i: int| 0 <= i < before.len() implies #[trigger] before[i].0@ != name@ by {
            assert(bv[i].0 == before[i].0@);
        }
        assert(after == before.push((name, members)));
        assert(enums_view(after) =~= bv.push(entry));
    }
}

/// The enum names and members declared anywhere in the file: each name with
/// its members, a later declaration of one name standing in for an earlier
/// one.
fn scan_enums(toks: &Vec<Spanned>) -> (r: Vec<(String, Vec<String>)>)
    ensures
        enums_view(r@) == enums_declared(toks@, toks@.len() as int),
        distinct_names(r@),
{
    let mut out: Vec<(String, Vec<String>)> = Vec::new();
    let n = toks.len();
    let mut i: usize = 0;
    assert(enums_view(out@) =~= enums_declared(toks@, 0));
    while i < n
        invariant
            i <= n == toks@.len(),
            enums_view(out@) == enums_declared(toks@, i as int),
            distinct_names(out@),
        decreases n - i,
    {
        if is_word(&toks[i].tok, "enum") && (i == 0 || matches!(toks[i - 1].tok, Tok::Newline))
            && n - i > 2 && matches!(toks[i + 2].tok, Tok::Newline) {
            assert(enum_header(toks@, i as int));
            if let Tok::Ident(name) = &toks[i + 1].tok {
                let mut members: Vec<String> = Vec::new();
                let mut j = i + 3;
                while j < n
                    invariant
                        i + 3 <= j <= n == toks@.len(),
                        string_views(members@) + enum_members(toks@, j as int) == enum_members(toks@, i + 3),
                    ensures
                        string_views(members@) == enum_members(toks@, i + 3),
                    decreases n - j,
                {
                    match &toks[j].tok {
                        Tok::Ident(m) => {
                            let ghost before = string_views(members@);
                            members.push(m.clone());
                            assert(string_views(members@) =~= before.push(m@));
                            assert(seq![m@] + enum_members(toks@, j + 1) == enum_members(toks@, j as int));
                            assert(before.push(m@) + enum_members(toks@, j + 1) =~= before + (seq![m@] + enum_members(toks@, j + 1)));
                        },
                        Tok::Comma | Tok::Newline => {},
                        _ => {
                            assert(enum_members(toks@, j as int) =~= Seq::<Seq<char>>::empty());
                            assert(string_views(members@) =~= string_views(members@) + enum_members(toks@, j as int));
                            break;
                        },
                    }
                    j = j + 1;
                }
                proof {
                    if j >= n {
                        assert(string_views(members@) =~= string_views(members@) + enum_members(toks@, j as int));
                    }
                }
                let ghost before = out@;
                let key = name.clone();
                enum_insert(&mut out, key, members);
                proof {
                    lemma_enum_insert_view(before, out@, key, members);
                }
            }
        }
        i = i + 1;
    }
    out
}

/// Tokens `start..e` hold no line break, and `e` ends the line: a newline,
/// the end of the stream, or past the last token.
pub open spec fn line_end_at(toks: Seq<Spanned>, start: int, e: int) -> bool {
    &&& start <= e
    &&& forall|j: int| start <= j < e ==> 0 <= j < toks.len() && !(#[trigger] toks[j].tok is Newline) && !(toks[j].tok is Eof)
    &&& (e >= toks.len() || toks[e].tok is Newline || toks[e].tok is Eof)
}

/// The identifiers among tokens `start..k`, in order, each with its span.
pub open spec fn idents_between(toks: Seq<Spanned>, start: int, k: int) -> Seq<Ident>
    decreases k - start,
{
    if k <= start {
        Seq::empty()
    } else {
        let rest = idents_between(toks, start, k - 1);
        let t = toks[k - 1];
        match t.tok {
            Tok::Ident(name) => rest.push(Ident { name, span: Span { line: t.line, col: t.col, end_col: t.end_col } }),
            _ => rest,
        }
    }
}

/// The token at `pos`, or the last one when `pos` is past the end.
pub open spec fn token_at_or_last(toks: Seq<Spanned>, pos: int) -> Spanned {
    if pos < toks.len() { toks[pos] } else { toks.last() }
}

/// `s` is the statement of kind `kind` whose header begins at token `start`:
/// its line and first column are those of that token, its span runs to the
/// last token before the line ends, and its identifiers are those on the way.
pub open spec fn header_stmt(toks: Seq<Spanned>, kind: StmtKind, start: int, s: Stmt) -> bool {
    let first = token_at_or_last(toks, start);
    exists|e: int| #![trigger line_end_at(toks, start, e)]
        line_end_at(toks, start, e) && s.kind == kind && s.line == first.line
        && s.span == Span { line: first.line, col: first.col, end_col: if e > start { toks[e - 1].end_col } else { first.end_col } }
        && s.idents@ == idents_between(toks, start, e)
}

/// `e` is the guard condition `last_error_code() <> 0`.
pub open spec fn error_code_test(e: Expr) -> bool {
    match e {
        Expr::Cmp(op, l, z) => op == CmpOp::Ne && *z == Expr::IntLit(0) && match *l {
            Expr::Call { cmd, args } => cmd@ == "last_error_code"@ && args@.len() == 0,
            _ => false,
        },
        _ => false,
    }
}

/// `v` is what a subroutine returning `ret` returns on failure: nothing for
/// no return type, else the zero of the type (a null pointer for `ptr`).
pub open spec fn failure_value(ret: Option<Ty>, v: Option<Expr>) -> bool {
    match ret {
        None => v is None,
        Some(t) => match t {
            Ty::Int | Ty::Int64 => v == Some(Expr::IntLit(0)),
            Ty::Bool => v == Some(Expr::BoolLit(false)),
            Ty::Double => match v {
                Some(Expr::DoubleLit(x)) => x@ == "0.0"@,
                _ => false,
            },
            Ty::Text => match v {
                Some(Expr::TextLit(x)) => x@.len() == 0,
                _ => false,
            },
            Ty::Ptr => match v {
                Some(Expr::Call { cmd, args }) => cmd@ == "ptr_null"@ && args@.len() == 0,
                _ => false,
            },
            _ => false,
        },
    }
}

/// A subroutine returning `ret` has a failure value for `check` to return.
pub open spec fn has_failure_value(ret: Option<Ty>) -> bool {
    match ret {
        None => true,
        Some(t) => t is Int || t is Int64 || t is Double || t is Text || t is Bool || t is Ptr,
    }
}

/// Tokens `from..i` are newlines, and `i` is the first that is not, or the
/// last token.
pub open spec fn newlines_skipped(toks: Seq<Spanned>, from: int, i: int) -> bool {
    &&& from <= i < toks.len()
    &&& forall|j: int| from <= j < i ==> #[trigger] toks[j].tok is Newline
    &&& (i == toks.len() - 1 || !(toks[i].tok is Newline))
}

/// Token `i` opens a record body: the spread `..`, or a name and a colon.
pub open spec fn record_opener(toks: Seq<Spanned>, i: int) -> bool {
    let next = if i < toks.len() - 1 { i + 1 } else { toks.len() - 1 };
    toks[i].tok is DotDot || (toks[i].tok is Ident && toks[next].tok is Colon)
}

/// Some enum in `enums` is named `w`.
pub open spec fn enum_named(enums: Seq<(String, Vec<String>)>, w: Seq<char>) -> bool {
    exists|i: int| 0 <= i < enums.len() && (#[trigger] enums[i]).0@ == w
}

/// The type the name `w` stands for: a type keyword, an enum (an `int`), or
/// else a record of that name.
pub open spec fn names_ty(enums: Seq<(String, Vec<String>)>, w: Seq<char>, t: Ty) -> bool {
    match spec_from_keyword(w) {
        Some(k) => t == k,
        None => if enum_named(enums, w) {
            t == Ty::Int
        } else {
            match t {
                Ty::Record(n) => n@ == w,
                _ => false,
            }
        },
    }
}

/// The C-layout field type that the name `w` stands for: `byte`, `int16`
/// (or `word`), `float`, a C scalar keyword, or else a record of that name.
pub open spec fn c_field_elem(w: Seq<char>, t: Ty) -> bool {
    if w == "byte"@ {
        t == Ty::Byte
    } else if w == "int16"@ || w == "word"@ {
        t == Ty::Int16
    } else if w == "float"@ {
        t == Ty::Float
    } else {
        match spec_from_keyword(w) {
            Some(k) => c_representable(k) && t == k,
            None => match t {
                Ty::Record(n) => n@ == w,
                _ => false,
            },
        }
    }
}

/// The type of a whole-number constant: `int` when it fits 32 bits.
pub open spec fn int_const_ty(n: int) -> Ty {
    if i32::MIN <= n <= i32::MAX { Ty::Int } else { Ty::Int64 }
}

/// The members of an enum body from token `p` on, through its `end`: the
/// index of each member's name, and the index just past the `end`; `None`
/// where the body is malformed or declares a member twice. Members are
/// separated by commas or newlines; `seen` holds the full names
/// (`Enum.member`) declared before `p`.
pub open spec fn enum_body(toks: Seq<Spanned>, enum_name: Seq<char>, p: int, seen: Seq<Seq<char>>)
    -> Option<(Seq<int>, int)>
    decreases toks.len() - p,
{
    if p < 0 || p >= toks.len() - 1 {
        None
    } else {
        match toks[p].tok {
            Tok::Newline => enum_body(toks, enum_name, p + 1, seen),
            Tok::End => Some((Seq::empty(), p + 1)),
            Tok::Ident(m) => {
                let full = enum_name + seq!['.'] + m@;
                if seen.contains(full) {
                    None
                } else {
                    let rest = match toks[p + 1].tok {
                        Tok::Comma => enum_body(toks, enum_name, p + 2, seen.push(full)),
                        Tok::Newline | Tok::End => enum_body(toks, enum_name, p + 1, seen.push(full)),
                        _ => None,
                    };
                    prepend_index(seq![p], rest)
                }
            },
            _ => None,
        }
    }
}

/// `found` with the indices `first` put before its own.
pub open spec fn prepend_index(first: Seq<int>, found: Option<(Seq<int>, int)>) -> Option<(Seq<int>, int)> {
    match found {
        Some((idx, e)) => Some((first + idx, e)),
        None => None,
    }
}

/// Newlines between `p` and `q` change nothing of what an enum body reads.
proof fn lemma_enum_body_skip(toks: Seq<Spanned>, enum_name: Seq<char>, p: int, q: int, seen: Seq<Seq<char>>)
    requires
        0 <= p <= q < toks.len(),
        toks.last().tok is Eof,
        forall|j: int| p <= j < q ==> #[trigger] toks[j].tok is Newline,
    ensures
        enum_body(toks, enum_name, p, seen) == enum_body(toks, enum_name, q, seen),
    decreases q - p,
{
    if p < q {
        assert(toks[p].tok is Newline);
        lemma_enum_body_skip(toks, enum_name, p + 1, q, seen);
    }
}

/// Constant `c` is member number `k` (from 0) of enum `enum_name`, whose
/// name is token `i`.
pub open spec fn enum_const(toks: Seq<Spanned>, enum_name: Seq<char>, i: int, k: int, c: ConstDef) -> bool {
    &&& (match toks[i].tok {
        Tok::Ident(m) => c.name@ == enum_name + seq!['.'] + m@,
        _ => false,
    })
    &&& c.value == Expr::IntLit((k + 1) as i64)
    &&& c.ty == Ty::Int
    &&& c.line == toks[i].line
    &&& c.name_span == (Span { line: toks[i].line, col: toks[i].col, end_col: toks[i].end_col })
}

/// The token is a quoted text, raw or not, holding `s`.
pub open spec fn quoted_tok(t: Tok, s: Seq<char>) -> bool {
    match t {
        Tok::Str(x) => x@ == s,
        Tok::RawStr(x) => x@ == s,
        _ => false,
    }
}

/// No byte of `b` is a brace.
pub open spec fn no_braces(b: Seq<u8>) -> bool {
    forall|i: int| 0 <= i < b.len() ==> #[trigger] b[i] != 123u8 && b[i] != 125u8
}

/// The first entry of `map` under `name`.
pub open spec fn first_entry<T>(map: Seq<(String, T)>, name: Seq<char>, i: int) -> bool {
    0 <= i < map.len() && map[i].0@ == name && forall|j: int| 0 <= j < i ==> map[j].0@ != name
}

/// Set the members of enum `name`, replacing the first earlier entry for it.
fn enum_insert(map: &mut Vec<(String, Vec<String>)>, name: String, members: Vec<String>)
    ensures
        forall|i: int| #[trigger] first_entry(old(map)@, name@, i) ==> final(map)@ == old(map)@.update(i, (name, members)),
        (forall|i: int| 0 <= i < old(map)@.len() ==> #[trigger] old(map)@[i].0@ != name@)
            ==> final(map)@ == old(map)@.push((name, members)),
{
    let ghost before = map@;
    let ghost entry = (name, members);
    let mut i: usize = 0;
    while i < map.len()
        invariant
            i <= map@.len(),
            map@ == before,
            before == old(map)@,
            entry == (name, members),
            forall|k: int| 0 <= k < i ==> #[trigger] before[k].0@ != name@,
        decreases map@.len() - i,
    {
        if str_eq(map[i].0.as_str(), name.as_str()) {
            map.remove(i);
            map.insert(i, (name, members));
            proof {
                assert(map@ =~= before.update(i as int, entry));
                assert(before[i as int].0@ == entry.0@);
                assert forall|j: int| #[trigger] first_entry(before, entry.0@, j) implies j == i as int by {
                    if j > i {
                        assert(before[i as int].0@ != entry.0@);
                    }
                }
            }
            return;
        }
        i = i + 1;
    }
    map.push((name, members));
}

/// The members of enum `name`, if one is declared: the first entry for it.
fn enum_get<'a>(map: &'a Vec<(String, Vec<String>)>, name: &str) -> (r: Option<&'a Vec<String>>)
    ensures
        match r {
            Some(m) => exists|i: int| #[trigger] first_entry(map@, name@, i) && *m == map@[i].1,
            None => forall|i: int| 0 <= i < map@.len() ==> #[trigger] map@[i].0@ != name@,
        },
{
    let mut i: usize = 0;
    while i < map.len()
        invariant
            i <= map@.len(),
            forall|k: int| 0 <= k < i ==> #[trigger] map@[k].0@ != name@,
        decreases map@.len() - i,
    {
        if str_eq(map[i].0.as_str(), name) {
            assert(first_entry(map@, name@, i as int));
            return Some(&map[i].1);
        }
        i = i + 1;
    }
    None
}

/// A parsed assignment target.
enum Lvalue {
    Var(String),
    Index { name: String, index: Expr },
    Property { component: String, property: String },
    Place(Expr),
}

impl Lvalue {
    /// The expression a read of this target is.
    fn read(&self) -> (r: Expr)
        ensures
            match *self {
                Lvalue::Var(name) => r == Expr::Var(name),
                Lvalue::Index { name, index } => r matches Expr::Index { base, index: i }
                    && *base == Expr::Var(name) && same_expr(index, *i),
                Lvalue::Property { component, property } => r == Expr::GetProperty { component, property },
                Lvalue::Place(e) => same_expr(e, r),
            },
    {
        match self {
            Lvalue::Var(name) => Expr::Var(name.clone()),
            Lvalue::Index { name, index } => Expr::Index {
                base: Box::new(Expr::Var(name.clone())),
                index: Box::new(expr_dup(index)),
            },
            Lvalue::Property { component, property } => Expr::GetProperty {
                component: component.clone(),
                property: property.clone(),
            },
            Lvalue::Place(e) => expr_dup(e),
        }
    }

    /// The statement that writes `value` into this target.
    fn write(self, value: Expr) -> (r: StmtKind)
        ensures
            r == match self {
                Lvalue::Var(name) => StmtKind::Assign { name, value },
                Lvalue::Index { name, index } => StmtKind::SetIndex { name, index, value },
                Lvalue::Property { component, property } => StmtKind::SetProperty { component, property, value },
                Lvalue::Place(place) => StmtKind::SetPlace { place, value },
            },
    {
        match self {
            Lvalue::Var(name) => StmtKind::Assign { name, value },
            Lvalue::Index { name, index } => StmtKind::SetIndex { name, index, value },
            Lvalue::Property { component, property } => StmtKind::SetProperty { component, property, value },
            Lvalue::Place(place) => StmtKind::SetPlace { place, value },
        }
    }
}

/// Which assignment operator a target was followed by.
enum AssignOp {
    Plain,
    Bin(BinOp),
    Concat,
}

/// The value a compound assignment stores: `target OP rhs`, or
/// `concat(target, rhs)` for `&=`.
fn apply_assign_op(op: AssignOp, target: Expr, rhs: Expr) -> (r: Expr)
    ensures
        match op {
            AssignOp::Plain => r == rhs,
            AssignOp::Bin(b) => r == Expr::Bin(b, Box::new(target), Box::new(rhs)),
            AssignOp::Concat => r matches Expr::Call { cmd, args } && cmd@ == "concat"@ && args@ == seq![target, rhs],
        },
{
    match op {
        AssignOp::Plain => rhs,
        AssignOp::Bin(b) => Expr::Bin(b, Box::new(target), Box::new(rhs)),
        AssignOp::Concat => Expr::Call { cmd: text("concat"), args: vec![target, rhs] },
    }
}

/// Is there a real `{expr}` hole in this decoded literal? `{{`/`}}` are
/// escaped braces and do not count.
pub fn text_has_hole(s: &str) -> (r: bool)
    ensures
        r == has_hole(s.spec_bytes(), 0),
{
    let b = s.as_bytes();
    let mut i: usize = 0;
    while i < b.len()
        invariant
            i <= b@.len(),
            b@ == s.spec_bytes(),
            has_hole(b@, 0) == has_hole(b@, i as int),
        decreases b@.len() - i,
    {
        if b[i] == 123u8 && i + 1 < b.len() && b[i + 1] == 123u8 {
            i = i + 2;
        } else if b[i] == 125u8 && i + 1 < b.len() && b[i + 1] == 125u8 {
            i = i + 2;
        } else if b[i] == 123u8 {
            return true;
        } else {
            i = i + 1;
        }
    }
    false
}

/// Whether the bytes from `i` on hold a hole: a `{` that is not the first of
/// a `{{` pair, reading the pairs `{{` and `}}` as one unit each.
pub open spec fn has_hole(b: Seq<u8>, i: int) -> bool
    decreases b.len() - i,
{
    if i < 0 || i >= b.len() {
        false
    } else if b[i] == 123u8 && i + 1 < b.len() && b[i + 1] == 123u8 {
        has_hole(b, i + 2)
    } else if b[i] == 125u8 && i + 1 < b.len() && b[i + 1] == 125u8 {
        has_hole(b, i + 2)
    } else if b[i] == 123u8 {
        true
    } else {
        has_hole(b, i + 1)
    }
}

/// Whether a character is a brace.
pub open spec fn is_brace(c: char) -> bool {
    c == '{' || c == '}'
}

/// A literal's text with each doubled brace, read left to right, made
/// single; a lone brace stays as it is.
pub open spec fn unescaped(s: Seq<char>) -> Seq<char>
    decreases s.len(),
{
    if s.len() == 0 {
        Seq::empty()
    } else if s.len() >= 2 && is_brace(s[0]) && s[1] == s[0] {
        seq![s[0]] + unescaped(s.subrange(2, s.len() as int))
    } else {
        seq![s[0]] + unescaped(s.subrange(1, s.len() as int))
    }
}

/// What remains to be unescaped: the rest, behind the brace still waiting
/// for its partner, if one is.
spec fn unescaped_after(waiting: Option<char>, rest: Seq<char>) -> Seq<char> {
    match waiting {
        Some(p) => unescaped(seq![p] + rest),
        None => unescaped(rest),
    }
}

/// Turn `{{`/`}}` into single braces in a literal with no holes.
pub fn unescape_braces(s: &str) -> (r: String)
    ensures
        r@ == unescaped(s@),
{
    let ghost t = s@;
    let mut out = String::new();
    let mut waiting: Option<char> = None;
    proof {
        assert(t.subrange(0, t.len() as int) =~= t);
        assert(out@ + unescaped(t) =~= unescaped(t));
    }
    for c in it: s.chars()
        invariant
            t == s@,
            it.seq() == t,
            0 <= it.index() <= t.len(),
            waiting matches Some(p) ==> is_brace(p),
            unescaped(t) == out@ + unescaped_after(waiting, t.subrange(it.index() as int, t.len() as int)),
    {
        let ghost k = it.index();
        let ghost rest = t.subrange(k + 1, t.len() as int);
        let ghost s1 = seq![c] + rest;
        assert(0 <= k < t.len() && c == t[k]);
        assert(t.subrange(k, t.len() as int) =~= s1);
        assert(s1.subrange(1, s1.len() as int) =~= rest);
        let ghost before = out@;
        match waiting {
            Some(p) => {
                let ghost s2 = seq![p] + s1;
                assert(s2.subrange(1, s2.len() as int) =~= s1);
                assert(s2.subrange(2, s2.len() as int) =~= rest);
                push_char(&mut out, p);
                if c == p {
                    waiting = None;
                    proof {
                        assert(unescaped(s2) == seq![p] + unescaped(rest));
                        assert(out@ + unescaped(rest) =~= before + (seq![p] + unescaped(rest)));
                    }
                } else if c == '{' || c == '}' {
                    waiting = Some(c);
                    proof {
                        assert(unescaped(s2) == seq![p] + unescaped(s1));
                        assert(out@ + unescaped(s1) =~= before + (seq![p] + unescaped(s1)));
                    }
                } else {
                    waiting = None;
                    push_char(&mut out, c);
                    proof {
                        assert(unescaped(s2) == seq![p] + unescaped(s1));
                        assert(unescaped(s1) == seq![c] + unescaped(rest));
                        assert(out@ + unescaped(rest) =~= before + (seq![p] + (seq![c] + unescaped(rest))));
                    }
                }
            },
            None => {
                if c == '{' || c == '}' {
                    waiting = Some(c);
                    proof {
                        assert(out@ == before);
                    }
                } else {
                    push_char(&mut out, c);
                    proof {
                        assert(unescaped(s1) == seq![c] + unescaped(rest));
                        assert(out@ + unescaped(rest) =~= before + (seq![c] + unescaped(rest)));
                    }
                }
            },
        }
    }
    proof {
        assert(t.subrange(t.len() as int, t.len() as int) =~= Seq::<char>::empty());
    }
    if let Some(p) = waiting {
        let ghost before = out@;
        proof {
            assert(seq![p].subrange(1, 1) =~= Seq::<char>::empty());
            assert(seq![p] + Seq::<char>::empty() =~= seq![p]);
            assert(unescaped(seq![p]) == seq![p] + unescaped(Seq::<char>::empty()));
        }
        push_char(&mut out, p);
        proof {
            assert(out@ =~= before + seq![p]);
            assert(unescaped(seq![p]) =~= seq![p]);
        }
    } else {
        proof {
            assert(out@ + Seq::<char>::empty() =~= out@);
        }
    }
    out
}

/// The parser's state: the token stream and a cursor into it.
struct Parser {
    toks: Vec<Spanned>,
    pos: usize,
    /// Statements a desugar produced *after* the one being returned.
    pending: Vec<Stmt>,
    /// The return type of the subroutine being parsed.
    cur_ret: Option<Ty>,
    /// Whether a subroutine body is being parsed at all.
    in_sub: bool,
    /// Every `enum` in the file and its members.
    enums: Vec<(String, Vec<String>)>,
    /// How many hidden names have been minted.
    hidden: usize,
    opts: ParseOptions,
    /// The source, by line, as bytes.
    lines: Vec<Vec<u8>>,
    /// The length in bytes of the text the tokens were read from; every text
    /// literal in the stream is shorter, which is what bounds the nesting of
    /// interpolation holes.
    budget: Ghost<nat>,
}

/// Which tokens end a block.
enum Stop {
    End,
    ElseOrEnd,
    /// `else`, `end`, or a `when` that leads a match arm.
    Arm,
}

pub open spec fn distinct_names<T>(v: Seq<(String, T)>) -> bool {
    forall|i: int, j: int| 0 <= i < j < v.len() ==> v[i].0@ != v[j].0@
}

impl Parser {
    /// The stream ends in its one `Eof`, the cursor is on a token, and every
    /// text literal is shorter than the source.
    spec fn wf(&self) -> bool {
        &&& self.toks@.len() >= 1
        &&& self.pos < self.toks@.len()
        &&& self.toks@.last().tok is Eof
        &&& forall|k: int| 0 <= k < self.toks@.len() - 1 ==> !(#[trigger] self.toks@[k].tok is Eof)
        &&& forall|k: int| 0 <= k < self.toks@.len() ==> (#[trigger] self.toks@[k].tok matches Tok::Ident(w) ==> is_name(w@))
        &&& strs_within(self.toks@, self.budget@)
        &&& self.budget@ <= usize::MAX
        &&& self.hidden <= self.pos
    }

    /// `next` is this parser later on: the same stream, the cursor no
    /// further back.
    spec fn moved_to(&self, next: Parser) -> bool {
        &&& next.toks == self.toks
        &&& next.budget == self.budget
        &&& self.pos <= next.pos
        &&& next.wf()
    }

    /// The cursor is on a type spelled by its next `len` tokens, the type
    /// `t`: a name, or a name followed by `[]` (a list of it) or `{}` (a
    /// dictionary of it), the element being no list or dictionary itself.
    spec fn reads_type(&self, t: Ty, len: int) -> bool {
        match self.cur() {
            Tok::Ident(w) => {
                let next = self.ahead(1);
                if next is LBracket || next is LBrace {
                    let list = next is LBracket;
                    &&& (if list { self.ahead(2) is RBracket } else { self.ahead(2) is RBrace })
                    &&& !(self.ahead(3) is LBracket || self.ahead(3) is LBrace)
                    &&& len == 3
                    &&& exists|base: Ty| #[trigger] names_ty(self.enums@, w@, base) && match ty_elem(base) {
                        Some(e) => t == if list { Ty::Array(e) } else { Ty::Dict(e) },
                        None => false,
                    }
                } else {
                    len == 1 && names_ty(self.enums@, w@, t)
                }
            },
            _ => false,
        }
    }

    /// The cursor is on a C-record field type spelled by its next `len`
    /// tokens, the type `t`: a field type name, or one followed by `[N]`, a
    /// fixed array of `N` (from 1 to `u32::MAX`) of it, no second `[` after.
    spec fn reads_c_field(&self, t: Ty, len: int) -> bool {
        match self.cur() {
            Tok::Ident(w) => {
                let next = self.ahead(1);
                if next is LBrace {
                    false
                } else if !(next is LBracket) {
                    len == 1 && c_field_elem(w@, t)
                } else {
                    match self.ahead(2) {
                        Tok::Int(n) => {
                            &&& 1 <= n <= u32::MAX
                            &&& self.ahead(3) is RBracket
                            &&& !(self.ahead(4) is LBracket)
                            &&& len == 4
                            &&& exists|e: Ty| #[trigger] c_field_elem(w@, e) && match t {
                                Ty::CArray(a) => a.elem == e && a.count == n,
                                _ => false,
                            }
                        },
                        _ => false,
                    }
                }
            },
            _ => false,
        }
    }

    /// The token `k` past the cursor is an operand read on its own: a
    /// literal, or a name that no call, record body, member or `of` follows;
    /// and no index or member follows it.
    spec fn lone_operand(&self, k: int) -> bool {
        let t = self.ahead(k);
        let n = self.ahead(k + 1);
        &&& !(n is Dot || n is LBracket)
        &&& (is_leaf(t) || (t matches Tok::Ident(x) && !(n is LParen || n is LBrace)
            && !((x@ == "address"@ || x@ == "size"@) && self.at_word(k + 1, "of"@))))
    }

    /// This parser with the cursor at `p`.
    spec fn at(&self, p: int) -> Parser {
        Parser { pos: p as usize, ..*self }
    }

    /// How many tokens the constant literal at the cursor takes: two with a
    /// leading `-`, else one.
    spec fn const_literal_len(&self) -> int {
        if self.cur() is Minus { 2 } else { 1 }
    }

    /// What `const NAME = ...` at the cursor reads as, an optional `-` folded
    /// into a number: a whole number typed `int` when it fits 32 bits and
    /// `int64` else, a bit pattern as it stands, a decimal, a text without
    /// holes (its doubled braces undone), a raw text or a bool; an error for
    /// anything else, for `-` before what is not a number, and for a
    /// negation that does not fit 64 bits.
    spec fn const_literal_result(&self, r: Result<(Expr, Ty), ParseError>) -> bool {
        let neg = self.cur() is Minus;
        let t = if neg { self.ahead(1) } else { self.cur() };
        match t {
            Tok::Int(v) => if neg && v == i64::MIN {
                r is Err
            } else {
                let n: int = if neg { -v } else { v as int };
                r == Ok::<(Expr, Ty), ParseError>((Expr::IntLit(n as i64), int_const_ty(n)))
            },
            Tok::Bits(v) => if !neg {
                r == Ok::<(Expr, Ty), ParseError>((Expr::BitsLit(v), if v <= u32::MAX { Ty::Int } else { Ty::Int64 }))
            } else if spec_bits_value(v) == i64::MIN {
                r is Err
            } else {
                let n: int = -spec_bits_value(v);
                r == Ok::<(Expr, Ty), ParseError>((Expr::IntLit(n as i64), int_const_ty(n)))
            },
            Tok::Float(x) => match r {
                Ok((Expr::DoubleLit(d), Ty::Double)) => d@ == if neg {
                    if x@.len() > 0 && x@[0] == '-' { x@.subrange(1, x@.len() as int) } else { seq!['-'] + x@ }
                } else {
                    x@
                },
                _ => false,
            },
            Tok::Str(x) => if neg || has_hole(encode_utf8(x@), 0) {
                r is Err
            } else {
                match r {
                    Ok((Expr::TextLit(d), Ty::Text)) => d@ == unescaped(x@),
                    _ => false,
                }
            },
            Tok::RawStr(x) => if neg {
                r is Err
            } else {
                match r {
                    Ok((Expr::TextLit(d), Ty::Text)) => d@ == x@,
                    _ => false,
                }
            },
            Tok::True => if neg { r is Err } else { r == Ok::<(Expr, Ty), ParseError>((Expr::BoolLit(true), Ty::Bool)) },
            Tok::False => if neg { r is Err } else { r == Ok::<(Expr, Ty), ParseError>((Expr::BoolLit(false), Ty::Bool)) },
            _ => r is Err,
        }
    }

    /// The enum declared at the cursor: its name, the indices of its
    /// members' names, and the index just past its `end`; `None` where the
    /// declaration is malformed or has no members.
    spec fn enum_def_read(&self) -> Option<(Seq<char>, Seq<int>, int)> {
        match self.ahead(1) {
            Tok::Ident(nm) => if self.ahead(2) is Newline {
                match enum_body(self.toks@, nm@, self.pos + 3, Seq::empty()) {
                    Some((idx, e)) => if idx.len() > 0 { Some((nm@, idx, e)) } else { None },
                    None => None,
                }
            } else {
                None
            },
            _ => None,
        }
    }

    /// The field type at token `q` of a record (a C-layout one for a C
    /// record) is `t`, spelled by `len` tokens.
    spec fn field_type_at(&self, q: int, is_c: bool, t: Ty, len: int) -> bool {
        if is_c { self.at(q).reads_c_field(t, len) } else { self.at(q).reads_type(t, len) }
    }

    /// Some field type at token `q` is spelled by `len` tokens.
    spec fn field_type_spans(&self, q: int, is_c: bool, len: int) -> bool {
        exists|t: Ty| #[trigger] self.field_type_at(q, is_c, t, len)
    }

    /// How many tokens the field type at token `q` takes; 0 where there is
    /// none.
    spec fn field_type_len(&self, q: int, is_c: bool) -> int {
        if exists|len: int| #[trigger] self.field_type_spans(q, is_c, len) {
            choose|len: int| #[trigger] self.field_type_spans(q, is_c, len)
        } else {
            0
        }
    }

    /// The fields of a record body from token `p` on, through its `end`:
    /// the index of each field's name, and the index just past the `end`;
    /// `None` where the body is malformed or declares a field twice. Each
    /// field is a name, `:`, a type and a newline, with blank lines between;
    /// `seen` holds the names declared before `p`.
    spec fn record_body(&self, p: int, is_c: bool, seen: Seq<Seq<char>>) -> Option<(Seq<int>, int)>
        decreases self.toks@.len() - p,
    {
        let toks = self.toks@;
        if p < 0 || p >= toks.len() - 1 {
            None
        } else {
            match toks[p].tok {
                Tok::Newline => self.record_body(p + 1, is_c, seen),
                Tok::End => Some((Seq::empty(), p + 1)),
                Tok::Ident(f) => {
                    let len = self.field_type_len(p + 2, is_c);
                    let after = p + 2 + len;
                    if toks[p + 1].tok is Colon && len > 0 && after < toks.len() && toks[after].tok is Newline
                        && !seen.contains(f@) {
                        prepend_index(seq![p], self.record_body(after + 1, is_c, seen.push(f@)))
                    } else {
                        None
                    }
                },
                _ => None,
            }
        }
    }

    /// Newlines between `p` and `q` change nothing of what a record body
    /// reads.
    proof fn lemma_record_body_skip(&self, p: int, q: int, is_c: bool, seen: Seq<Seq<char>>)
        requires
            0 <= p <= q < self.toks@.len(),
            self.toks@.last().tok is Eof,
            forall|j: int| p <= j < q ==> #[trigger] self.toks@[j].tok is Newline,
        ensures
            self.record_body(p, is_c, seen) == self.record_body(q, is_c, seen),
        decreases q - p,
    {
        if p < q {
            assert(self.toks@[p].tok is Newline);
            self.lemma_record_body_skip(p + 1, q, is_c, seen);
        }
    }

    /// A field type read at token `q` has the length `field_type_len` gives.
    proof fn lemma_field_type_len(&self, q: int, is_c: bool, t: Ty, len: int)
        requires
            self.field_type_at(q, is_c, t, len),
        ensures
            self.field_type_len(q, is_c) == len,
    {
        assert(self.field_type_spans(q, is_c, len));
        let l2 = choose|l: int| #[trigger] self.field_type_spans(q, is_c, l);
        let t2 = choose|t2: Ty| #[trigger] self.field_type_at(q, is_c, t2, l2);
        if !is_c {
            self.at(q).lemma_reads_type_unique(t, len, t2, l2);
        } else {
            let n = self.at(q).ahead(1);
            assert(l2 == len) by {
                if n is LBracket {} else {}
            }
        }
    }

    /// The record declared at the cursor: its name, whether it is a C
    /// record, the indices of its fields' names, and the index just past
    /// its `end`; `None` where the declaration is malformed or has no
    /// fields.
    spec fn record_def_read(&self) -> Option<(Seq<char>, bool, Seq<int>, int)> {
        match self.ahead(1) {
            Tok::Ident(nm) => {
                let is_c = self.at_word(2, "is"@);
                let body = if is_c { 5int } else { 3int };
                if is_c && !self.at_word(3, "c"@) {
                    None
                } else if !(self.ahead(body - 1) is Newline) {
                    None
                } else {
                    match self.record_body(self.pos + body, is_c, Seq::empty()) {
                        Some((idx, e)) => if idx.len() > 0 { Some((nm@, is_c, idx, e)) } else { None },
                        None => None,
                    }
                }
            },
            _ => None,
        }
    }

    /// Field `f` is the one whose name is token `i` of a record read by
    /// this parser.
    spec fn record_field(&self, i: int, is_c: bool, f: (String, Ty)) -> bool {
        word_tok(self.toks@[i].tok, f.0@) && self.field_type_is(i + 2, is_c, f.1)
    }

    /// The field type at token `q` is `t`.
    spec fn field_type_is(&self, q: int, is_c: bool, t: Ty) -> bool {
        exists|len: int| #[trigger] self.field_type_at(q, is_c, t, len)
    }

    /// The token at index `k`, or the last one.
    spec fn tok(&self, k: int) -> Tok {
        if 0 <= k < self.toks@.len() { self.toks@[k].tok } else { self.toks@.last().tok }
    }

    /// The type at token `q` is a C-signature type `t` spelled by `len`
    /// tokens: a C scalar, or a record where `allow_record`.
    spec fn ffi_type_at(&self, q: int, allow_record: bool, t: Ty, len: int) -> bool {
        self.at(q).reads_type(t, len) && (c_representable(t) || (allow_record && t is Record))
    }

    /// Some C-signature type at token `q` is spelled by `len` tokens.
    spec fn ffi_type_spans(&self, q: int, allow_record: bool, len: int) -> bool {
        exists|t: Ty| #[trigger] self.ffi_type_at(q, allow_record, t, len)
    }

    /// The C-signature type at token `q` is `t`.
    spec fn ffi_type_is(&self, q: int, allow_record: bool, t: Ty) -> bool {
        exists|len: int| #[trigger] self.ffi_type_at(q, allow_record, t, len)
    }

    /// How many tokens the C-signature type at token `q` takes; 0 where
    /// there is none.
    spec fn ffi_type_len(&self, q: int, allow_record: bool) -> int {
        if exists|len: int| #[trigger] self.ffi_type_spans(q, allow_record, len) {
            choose|len: int| #[trigger] self.ffi_type_spans(q, allow_record, len)
        } else {
            0
        }
    }

    /// A C-signature type read at token `q` has the length `ffi_type_len`
    /// gives.
    proof fn lemma_ffi_type_len(&self, q: int, allow_record: bool, t: Ty, len: int)
        requires
            self.ffi_type_at(q, allow_record, t, len),
        ensures
            self.ffi_type_len(q, allow_record) == len,
    {
        assert(self.ffi_type_spans(q, allow_record, len));
        let l2 = choose|l: int| #[trigger] self.ffi_type_spans(q, allow_record, l);
        let t2 = choose|t2: Ty| #[trigger] self.ffi_type_at(q, allow_record, t2, l2);
        self.at(q).lemma_reads_type_unique(t, len, t2, l2);
    }

    /// The parameters of a foreign function from token `p` on (at least
    /// one): the index of each parameter's name, and the index of the `)`
    /// that closes them; `None` where they are malformed, one is declared
    /// twice or one has a default. Each is a name, `:` and a C-signature
    /// type (a record allowed), separated by commas, a trailing comma
    /// allowed; `seen` holds the names declared before `p`.
    spec fn dll_params(&self, p: int, seen: Seq<Seq<char>>) -> Option<(Seq<int>, int)>
        decreases self.toks@.len() - p,
    {
        let toks = self.toks@;
        if p < 0 || p >= toks.len() - 1 {
            None
        } else {
            match toks[p].tok {
                Tok::Ident(pn) => {
                    let len = self.ffi_type_len(p + 2, true);
                    let after = p + 2 + len;
                    if toks[p + 1].tok is Colon && len > 0 && after < toks.len() - 1 && !seen.contains(pn@)
                        && !(toks[after].tok is Eq) {
                        if toks[after].tok is Comma {
                            if toks[after + 1].tok is RParen {
                                Some((seq![p], after + 1))
                            } else {
                                prepend_index(seq![p], self.dll_params(after + 1, seen.push(pn@)))
                            }
                        } else if toks[after].tok is RParen {
                            Some((seq![p], after))
                        } else {
                            None
                        }
                    } else {
                        None
                    }
                },
                _ => None,
            }
        }
    }

    /// The rest of a foreign function declaration from token `k`, just past
    /// its parameters' `)`, reads as `d` says: an optional `: TYPE` (a C
    /// scalar), `from` and a quoted non-empty library name, an optional `as`
    /// and a quoted non-empty symbol, an optional calling convention with no
    /// `as` after it, and the end of the line.
    spec fn dll_tail(&self, k: int, d: DllDecl) -> bool {
        let has_ret = self.tok(k) is Colon;
        let m = if has_ret { k + 1 + self.ffi_type_len(k + 1, false) } else { k };
        let n = m + 2;
        let as_sym = word_tok(self.tok(n), "as"@);
        let n2 = if as_sym { n + 2 } else { n };
        let n3 = if d.conv is Some { n2 + 1 } else { n2 };
        &&& (if has_ret {
            self.ffi_type_len(k + 1, false) > 0 && match d.ret {
                Some(t) => self.ffi_type_is(k + 1, false, t),
                None => false,
            }
        } else {
            d.ret is None
        })
        &&& word_tok(self.tok(m), "from"@)
        &&& quoted_tok(self.tok(m + 1), d.library@)
        &&& d.library@.len() > 0
        &&& (if as_sym {
            match d.symbol {
                Some(sym) => quoted_tok(self.tok(n + 1), sym@) && sym@.len() > 0,
                None => false,
            }
        } else {
            d.symbol is None
        })
        &&& match self.tok(n2) {
            Tok::Ident(w) => match spec_call_conv_parse(w@) {
                Some(c) => d.conv == Some(c),
                None => false,
            },
            _ => d.conv is None,
        }
        &&& !(d.conv is Some && word_tok(self.tok(n3), "as"@))
        &&& self.tok(n3) is Newline
    }

    /// The foreign function declared at the cursor reads as `d`: `dll`, its
    /// name, its parameters in parentheses, and the rest as `dll_tail` says.
    spec fn dll_decl_reads(&self, d: DllDecl) -> bool {
        &&& word_tok(self.ahead(1), d.name@)
        &&& self.ahead(2) is LParen
        &&& d.line == self.toks@[self.pos as int].line
        &&& d.name_span == (Span {
            line: self.toks@[self.pos + 1].line,
            col: self.toks@[self.pos + 1].col,
            end_col: self.toks@[self.pos + 1].end_col,
        })
        &&& match (if self.ahead(3) is RParen { Some((Seq::<int>::empty(), self.pos + 3)) } else { self.dll_params(self.pos + 3, Seq::empty()) }) {
            Some((idx, close)) => {
                &&& d.params@.len() == idx.len()
                &&& forall|k: int| 0 <= k < idx.len() ==> word_tok(self.toks@[idx[k]].tok, (#[trigger] d.params@[k]).0@)
                    && self.ffi_type_is(idx[k] + 2, true, d.params@[k].1)
                &&& self.dll_tail(close + 1, d)
            },
            None => false,
        }
    }

    /// Two readings of the type at the cursor agree on its length, and on
    /// whether it is a record or a C scalar.
    proof fn lemma_reads_type_unique(&self, t1: Ty, l1: int, t2: Ty, l2: int)
        requires
            self.reads_type(t1, l1),
            self.reads_type(t2, l2),
        ensures
            l1 == l2,
            (t1 is Record) == (t2 is Record),
            c_representable(t1) == c_representable(t2),
    {
        if let Tok::Ident(w) = self.cur() {
            let next = self.ahead(1);
            if next is LBracket || next is LBrace {
                let b1 = choose|base: Ty| #[trigger] names_ty(self.enums@, w@, base) && match ty_elem(base) {
                    Some(e) => t1 == if next is LBracket { Ty::Array(e) } else { Ty::Dict(e) },
                    None => false,
                };
                let b2 = choose|base: Ty| #[trigger] names_ty(self.enums@, w@, base) && match ty_elem(base) {
                    Some(e) => t2 == if next is LBracket { Ty::Array(e) } else { Ty::Dict(e) },
                    None => false,
                };
                assert(names_ty(self.enums@, w@, b1));
                assert(names_ty(self.enums@, w@, b2));
            }
        }
    }

    /// The source text of tokens `from..to` on the first one's line,
    /// trimmed: the line's bytes from the first token's column to the last
    /// token's end (the line's end when the last token is on a later line),
    /// and nothing where the line or the columns lie outside the source or
    /// those bytes are not UTF-8.
    spec fn source_text(&self, from: int, to: int) -> Seq<char> {
        let first = token_at_or_last(self.toks@, from);
        let last = token_at_or_last(self.toks@, if to == 0 { 0 } else { to - 1 });
        let li: int = if first.line == 0 { 0 } else { first.line - 1 };
        if li >= self.lines@.len() {
            Seq::empty()
        } else {
            let line = self.lines@[li]@;
            let start: int = if first.col == 0 { 0 } else { first.col - 1 };
            let end: int = if last.line == first.line {
                let e: int = if last.end_col == 0 { 0 } else { last.end_col - 1 };
                if e < line.len() { e } else { line.len() as int }
            } else {
                line.len() as int
            };
            if start > end || end > line.len() {
                Seq::empty()
            } else if valid_utf8(line.subrange(start, end)) {
                trimmed(decode_utf8(line.subrange(start, end)))
            } else {
                Seq::empty()
            }
        }
    }

    /// The index `n` places past the cursor, or the last one.
    spec fn clamped(&self, n: int) -> int {
        if self.pos + n < self.toks@.len() { self.pos + n } else { self.toks@.len() - 1 }
    }

    spec fn remaining(&self) -> nat {
        (self.toks@.len() - self.pos) as nat
    }

    spec fn cur(&self) -> Tok {
        self.toks@[self.pos as int].tok
    }

    /// The token `n` places past the cursor, or the final one.
    spec fn ahead(&self, n: int) -> Tok {
        if self.pos + n < self.toks@.len() { self.toks@[self.pos + n].tok } else { self.toks@.last().tok }
    }

    /// The token `n` places past the cursor is the identifier `w`.
    spec fn at_word(&self, n: int, w: Seq<char>) -> bool {
        word_tok(self.ahead(n), w)
    }

    /// The word `w` leads something: it is followed by an identifier that is
    /// not an operator word.
    spec fn leads_soft(&self, w: Seq<char>) -> bool {
        self.at_word(0, w) && plain_ident_tok(self.ahead(1))
    }

    /// The word `w` leads a statement rather than being assigned to, indexed
    /// or read a field of, and something follows it on the line.
    spec fn leads_statement(&self, w: Seq<char>) -> bool {
        let next = self.ahead(1);
        &&& self.at_word(0, w)
        &&& !(next is Eq || next is PlusEq || next is MinusEq || next is StarEq || next is SlashEq
            || next is AmpEq || next is LBracket || next is Dot)
        &&& !(self.at_word(1, "mod"@) && self.ahead(2) is Eq)
        &&& !(next is Newline || next is Eof)
    }

    /// The comparison operator at the cursor.
    spec fn cmp_at(&self) -> Option<CmpOp> {
        cmp_op_of(self.cur())
    }

    /// The assignment operator at the cursor.
    spec fn assign_at(&self) -> Option<AssignOp> {
        if self.at_word(0, "mod"@) && self.ahead(1) is Eq {
            Some(AssignOp::Bin(BinOp::Rem))
        } else {
            match self.cur() {
                Tok::Eq => Some(AssignOp::Plain),
                Tok::PlusEq => Some(AssignOp::Bin(BinOp::Add)),
                Tok::MinusEq => Some(AssignOp::Bin(BinOp::Sub)),
                Tok::StarEq => Some(AssignOp::Bin(BinOp::Mul)),
                Tok::SlashEq => Some(AssignOp::Bin(BinOp::Div)),
                Tok::AmpEq => Some(AssignOp::Concat),
                _ => None,
            }
        }
    }

    fn peek(&self) -> (r: &Tok)
        requires
            self.wf(),
        ensures
            *r == self.cur(),
    {
        &self.toks[self.pos].tok
    }

    fn line(&self) -> (r: usize)
        requires
            self.wf(),
        ensures
            r == self.toks@[self.pos as int].line,
    {
        self.toks[self.pos].line
    }

    /// The span of the token at `pos`.
    fn span_at(&self, pos: usize) -> (r: Span)
        requires
            self.wf(),
        ensures
            ({
                let t = if pos < self.toks@.len() { self.toks@[pos as int] } else { self.toks@.last() };
                r == Span { line: t.line, col: t.col, end_col: t.end_col }
            }),
    {
        let p = if pos < self.toks.len() { pos } else { self.toks.len() - 1 };
        let t = &self.toks[p];
        Span::new(t.line, t.col, t.end_col)
    }

    /// A statement whose header began at token `start`: its span runs to the
    /// end of that line, and its identifiers are the ones on it.
    fn finish(&self, kind: StmtKind, start: usize) -> (r: Stmt)
        requires
            self.wf(),
        ensures
            header_stmt(self.toks@, kind, start as int, r),
    {
        let first = self.span_at(start);
        let ghost f = token_at_or_last(self.toks@, start as int);
        let mut span = first;
        let mut idents: Vec<Ident> = Vec::new();
        let mut k = start;
        while k < self.toks.len()
            invariant
                self.wf(),
                start <= k,
                k <= self.toks@.len() || k == start,
                first == (Span { line: f.line, col: f.col, end_col: f.end_col }),
                forall|j: int| start <= j < k ==> 0 <= j < self.toks@.len() && !(#[trigger] self.toks@[j].tok is Newline) && !(self.toks@[j].tok is Eof),
                idents@ == idents_between(self.toks@, start as int, k as int),
                span == (Span { line: f.line, col: f.col, end_col: if k > start { self.toks@[k - 1].end_col } else { f.end_col } }),
            ensures
                line_end_at(self.toks@, start as int, k as int),
                idents@ == idents_between(self.toks@, start as int, k as int),
                span == (Span { line: f.line, col: f.col, end_col: if k > start { self.toks@[k - 1].end_col } else { f.end_col } }),
            decreases self.toks@.len() - k,
        {
            let t = &self.toks[k];
            if matches!(t.tok, Tok::Newline | Tok::Eof) {
                break;
            }
            span.end_col = t.end_col;
            if let Tok::Ident(name) = &t.tok {
                idents.push(Ident { name: name.clone(), span: Span::new(t.line, t.col, t.end_col) });
            }
            k = k + 1;
        }
        let r = Stmt { kind, line: first.line, span, idents };
        assert(line_end_at(self.toks@, start as int, k as int));
        r
    }

    /// The token `n` places past the cursor, saturating at the final `Eof`.
    fn peek_at(&self, n: usize) -> (r: &Tok)
        requires
            self.wf(),
            n <= 8,
        ensures
            *r == self.ahead(n as int),
    {
        let k = if n < self.toks.len() - self.pos { self.pos + n } else { self.toks.len() - 1 };
        &self.toks[k].tok
    }

    /// Take the token at the cursor; the cursor stays on the final `Eof`.
    fn bump(&mut self) -> (t: Tok)
        requires
            old(self).wf(),
        ensures
            old(self).moved_to(*final(self)),
            tok_same(t, old(self).cur()),
            old(self).cur() is Eof ==> final(self).pos == old(self).pos,
            !(old(self).cur() is Eof) ==> final(self).pos == old(self).pos + 1,
            final(self).hidden == old(self).hidden,
            final(self).in_sub == old(self).in_sub,
            final(self).pending == old(self).pending,
            final(self).enums == old(self).enums,
            final(self).cur_ret == old(self).cur_ret,
    {
        let t = tok_dup(&self.toks[self.pos].tok);
        if self.pos < self.toks.len() - 1 {
            self.pos = self.pos + 1;
        }
        t
    }

    fn err<T>(&self, msg: String) -> (r: Result<T, ParseError>)
        requires
            self.wf(),
        ensures
            r is Err,
            r->Err_0.line == self.toks@[self.pos as int].line,
            r->Err_0.msg == msg,
    {
        Err(ParseError { line: self.line(), msg })
    }

    fn expect(&mut self, want: &Tok, what: &str) -> (r: Result<(), ParseError>)
        requires
            old(self).wf(),
            !(*want is Eof),
        ensures
            old(self).moved_to(*final(self)),
            r is Ok ==> final(self).pos == old(self).pos + 1,
            r is Err ==> final(self).pos == old(self).pos,
            r is Ok <==> tok_code_of(old(self).cur()) == tok_code_of(*want),
            final(self).hidden == old(self).hidden,
            final(self).pending == old(self).pending,
            final(self).enums == old(self).enums,
    {
        if same_kind(self.peek(), want) {
            self.bump();
            Ok(())
        } else {
            let msg = with_tok(&cat3("expected ", what, ", found "), self.peek(), "");
            self.err(msg)
        }
    }

    /// Consume zero or more newline separators.
    fn skip_newlines(&mut self)
        requires
            old(self).wf(),
        ensures
            old(self).moved_to(*final(self)),
            !(final(self).cur() is Newline),
            forall|j: int| old(self).pos <= j < final(self).pos ==> #[trigger] old(self).toks@[j].tok is Newline,
            final(self).hidden == old(self).hidden,
            final(self).pending == old(self).pending,
            final(self).enums == old(self).enums,
    {
        while matches!(self.peek(), Tok::Newline)
            invariant
                old(self).moved_to(*self),
                forall|j: int| old(self).pos <= j < self.pos ==> #[trigger] old(self).toks@[j].tok is Newline,
                self.enums == old(self).enums,
                self.hidden == old(self).hidden,
                self.pending == old(self).pending,
            decreases self.toks@.len() - self.pos,
        {
            self.bump();
        }
    }

    fn ident(&mut self, what: &str) -> (r: Result<String, ParseError>)
        requires
            old(self).wf(),
        ensures
            old(self).moved_to(*final(self)),
            r is Ok ==> final(self).pos == old(self).pos + 1 && is_name(r->Ok_0@),
            r is Ok <==> old(self).cur() is Ident,
            r matches Ok(w) ==> old(self).cur() matches Tok::Ident(x) && x@ == w@,
            final(self).hidden == old(self).hidden,
            final(self).pending == old(self).pending,
            final(self).enums == old(self).enums,
    {
        let at_eof = matches!(self.peek(), Tok::Eof);
        match self.bump() {
            Tok::Ident(s) => Ok(s),
            other => {
                let msg = with_tok(&cat3("expected ", what, ", found "), &other, "");
                self.err(msg)
            },
        }
    }

    /// The word at the cursor, when it is a plain identifier.
    fn word_is(&self, w: &str) -> (r: bool)
        requires
            self.wf(),
        ensures
            r == self.at_word(0, w@),
            r ==> self.cur() is Ident,
    {
        is_word(self.peek(), w)
    }

    fn module(&mut self) -> (r: Result<Module, ParseError>)
        requires
            old(self).wf(),
        ensures
            old(self).moved_to(*final(self)),
            r matches Ok(m) ==> module_laws(m),
            forall|i: int| #[trigger] newlines_skipped(old(self).toks@, old(self).pos as int, i)
                ==> (r is Ok ==> old(self).toks@[i].tok is Module && old(self).tok(i + 2) is Newline)
                    && (r matches Ok(m) ==> word_tok(old(self).tok(i + 1), m.name@)),
        decreases old(self).budget@, old(self).remaining(), 90nat,
    {
        self.skip_newlines();
        let ghost i0 = self.pos as int;
        proof {
            assert(newlines_skipped(old(self).toks@, old(self).pos as int, i0));
            assert forall|i: int| #[trigger] newlines_skipped(old(self).toks@, old(self).pos as int, i)
                implies i == i0 by {
                if i < i0 {
                    assert(old(self).toks@[i].tok is Newline);
                } else if i > i0 {
                    assert(old(self).toks@[i0].tok is Newline);
                }
            }
        }
        self.expect(&Tok::Module, "`module`")?;
        let name = self.ident("module name")?;
        self.expect(&Tok::Newline, "newline after module name")?;
        let ghost header = old(self).toks@[i0].tok is Module && old(self).tok(i0 + 2) is Newline
            && word_tok(old(self).tok(i0 + 1), name@);
        assert(header);

        let mut target: Option<Target> = None;
        let mut uses: Vec<String> = Vec::new();
        loop
            invariant
                old(self).moved_to(*self),
                old(self).pos < self.pos,
                is_name(name@),
                header == (old(self).toks@[i0].tok is Module && old(self).tok(i0 + 2) is Newline
                    && word_tok(old(self).tok(i0 + 1), name@)),
                header,
            decreases self.remaining(),
        {
            self.skip_newlines();
            if self.word_is("target") {
                let line = self.line();
                self.bump();
                let kind = self.ident("target kind")?;
                match Target::parse(kind.as_str()) {
                    Some(t) => target = Some(t),
                    None => {
                        return Err(ParseError {
                            line,
                            msg: cat3("unknown target `", kind.as_str(),
                                "` — expected console, gui, sharedlib or staticlib"),
                        });
                    },
                }
                self.expect(&Tok::Newline, "newline after `target`")?;
                continue;
            }
            if matches!(self.peek(), Tok::Use) {
                self.bump();
                let lib = self.ident("library name")?;
                self.expect(&Tok::Newline, "newline after `use`")?;
                uses.push(lib);
            } else {
                break;
            }
        }

        let mut items: Vec<Item> = Vec::new();
        loop
            invariant
                old(self).moved_to(*self),
                is_name(name@),
                header == (old(self).toks@[i0].tok is Module && old(self).tok(i0 + 2) is Newline
                    && word_tok(old(self).tok(i0 + 1), name@)),
                header,
                forall|k: int| 0 <= k < items@.len() ==> item_laws(#[trigger] items@[k]),
            decreases self.remaining(),
        {
            self.skip_newlines();
            let before = self.pos;
            if matches!(self.peek(), Tok::Sub) {
                let s = self.sub()?;
                items.push(Item::Sub(s));
            } else if matches!(self.peek(), Tok::Form) {
                let f = self.form()?;
                items.push(Item::Form(f));
            } else if matches!(self.peek(), Tok::Var) {
                let v = self.global_var()?;
                items.push(Item::Var(v));
            } else if self.word_is("record") {
                let rd = self.record_def()?;
                items.push(Item::UserType(rd));
            } else if self.word_is("dll") {
                let d = self.dll_decl()?;
                items.push(Item::Dll(d));
            } else if self.word_is("const") {
                let c = self.const_def()?;
                items.push(Item::Const(c));
            } else if self.word_is("enum") && matches!(self.peek_at(1), Tok::Ident(_))
                && matches!(self.peek_at(2), Tok::Newline) {
                let cs = self.enum_def()?;
                let mut k: usize = 0;
                let mut cs = cs;
                while cs.len() > 0
                    invariant
                        forall|j: int| 0 <= j < items@.len() ==> item_laws(#[trigger] items@[j]),
                    decreases cs@.len(),
                {
                    let c = cs.remove(0);
                    items.push(Item::Const(c));
                }
            } else if let Tok::Ident(type_word) = self.peek() {
                let component_type = text(type_word.as_str());
                self.bump();
                let c = self.component(component_type)?;
                items.push(Item::Component(c));
            } else if matches!(self.peek(), Tok::Eof) {
                break;
            } else {
                let msg = with_tok(
                    "expected `sub`, `dll`, `const`, `form`, `var`, a component, or end of file, found ",
                    self.peek(), "");
                return self.err(msg);
            }
            assert(self.pos > before);
        }
        Ok(Module { name, target, uses, items })
    }

    /// `sub := "sub" IDENT params? (":" type)? conv? NEWLINE stmt* "end" NEWLINE`
    fn sub(&mut self) -> (r: Result<Sub, ParseError>)
        requires
            old(self).wf(),
            old(self).cur() is Sub,
        ensures
            old(self).moved_to(*final(self)),
            r is Ok ==> final(self).pos > old(self).pos,
            r matches Ok(s) ==> distinct_names(s.params@) && is_name(s.name@)
                && s.defaults@.len() == s.params@.len(),
            r matches Ok(s) ==> (old(self).ahead(1) matches Tok::Ident(x) && s.name@ == x@),
            r matches Ok(s) ==> defaults_trail(s.defaults@),
            !(old(self).ahead(1) is Ident) ==> r is Err,
        decreases old(self).budget@, old(self).remaining(), 80nat,
    {
        let sub_line = self.line();
        self.expect(&Tok::Sub, "`sub`")?;
        let name_span = self.span_at(self.pos);
        let name = self.ident("subroutine name")?;

        let mut params: Vec<(String, Ty)> = Vec::new();
        let mut defaults: Vec<Option<Expr>> = Vec::new();
        if matches!(self.peek(), Tok::LParen) {
            self.bump();
            if !matches!(self.peek(), Tok::RParen) {
                loop
                    invariant
                        old(self).moved_to(*self),
                        old(self).pos < self.pos,
                        distinct_names(params@),
                        defaults@.len() == params@.len(),
                        defaults_trail(defaults@),
                        is_name(name@),
                    decreases self.remaining(),
                {
                    let pname = self.ident("parameter name")?;
                    self.expect(&Tok::Colon, "`:` after parameter name")?;
                    let pty = self.type_keyword()?;
                    match find_name(&params, pname.as_str()) {
                        Some(_) => {
                            let mut msg = cat3("subroutine `", name.as_str(), "` declares parameter `");
                            push_str(&mut msg, pname.as_str());
                            push_str(&mut msg, "` twice");
                            return self.err(msg);
                        },
                        None => {},
                    }
                    let default = if matches!(self.peek(), Tok::Eq) {
                        self.bump();
                        Some(self.expr()?)
                    } else {
                        None
                    };
                    if default.is_none() {
                        if let Some(i) = first_default(&defaults) {
                            let mut msg = cat3("subroutine `", name.as_str(), "`: parameter `");
                            push_str(&mut msg, pname.as_str());
                            push_str(&mut msg, "` has no default but `");
                            push_str(&mut msg, params[i].0.as_str());
                            push_str(&mut msg, "` before it does — a default is only allowed on the last parameters");
                            return self.err(msg);
                        }
                    }
                    defaults.push(default);
                    params.push((pname, pty));
                    if matches!(self.peek(), Tok::Comma) {
                        self.bump();
                        if matches!(self.peek(), Tok::RParen) {
                            break;
                        }
                    } else if matches!(self.peek(), Tok::RParen) {
                        break;
                    } else {
                        let msg = with_tok("expected `,` or `)` in parameters, found ", self.peek(), "");
                        return self.err(msg);
                    }
                }
            }
            self.expect(&Tok::RParen, "`)` after parameters")?;
        }

        let ret = if matches!(self.peek(), Tok::Colon) {
            self.bump();
            Some(self.type_keyword()?)
        } else {
            None
        };
        let conv = self.call_conv_opt(&cat3("subroutine `", name.as_str(), "`"))?;
        self.expect(&Tok::Newline, "newline after subroutine name")?;

        self.cur_ret = ret;
        self.in_sub = true;
        let mut body: Vec<Stmt> = Vec::new();
        loop
            invariant
                old(self).moved_to(*self),
                old(self).pos < self.pos,
                distinct_names(params@),
                defaults@.len() == params@.len(),
                defaults_trail(defaults@),
                is_name(name@),
            decreases self.remaining(),
        {
            self.skip_newlines();
            if matches!(self.peek(), Tok::End) {
                self.bump();
                break;
            } else if matches!(self.peek(), Tok::Eof) {
                return self.err(text("unexpected end of file inside `sub` (missing `end`)"));
            } else {
                if let Some(st) = self.statement()? {
                    body.push(st);
                }
            }
            body.append(&mut self.pending);
        }
        self.in_sub = false;
        self.cur_ret = None;
        if matches!(self.peek(), Tok::Newline) {
            self.bump();
        }
        Ok(Sub { name, params, defaults, ret, conv, line: sub_line, name_span, body })
    }

    /// `dll := "dll" IDENT "(" ffiparams? ")" (":" ffitype)? "from" STRING ("as" STRING)? conv? NEWLINE`
    #[verifier::rlimit(80)]
    fn dll_decl(&mut self) -> (r: Result<DllDecl, ParseError>)
        requires
            old(self).wf(),
            old(self).cur() is Ident,
        ensures
            old(self).moved_to(*final(self)),
            r is Ok ==> final(self).pos > old(self).pos,
            r matches Ok(d) ==> distinct_names(d.params@) && is_name(d.name@) && d.library@.len() > 0,
            r matches Ok(d) ==> ffi_signature(d),
            r matches Ok(d) ==> old(self).dll_decl_reads(d),
            r is Err ==> forall|d: DllDecl| !#[trigger] old(self).dll_decl_reads(d),
        decreases old(self).budget@, old(self).remaining(), 80nat,
    {
        let ghost start = *self;
        let dll_line = self.line();
        self.bump();
        let name_span = self.span_at(self.pos);
        let name = self.ident("foreign function name")?;
        let subject = cat3("foreign function `", name.as_str(), "`");

        self.expect(&Tok::LParen, "`(` after foreign function name")?;
        let ghost p0 = start.pos + 3;
        let ghost plist = if start.ahead(3) is RParen {
            Some((Seq::<int>::empty(), p0))
        } else {
            start.dll_params(p0, Seq::empty())
        };
        let ghost mut done: Seq<int> = Seq::empty();
        let ghost mut seen: Seq<Seq<char>> = Seq::empty();
        let mut params: Vec<(String, Ty)> = Vec::new();
        assert(plist is None ==> forall|d: DllDecl| !#[trigger] start.dll_decl_reads(d));
        if !matches!(self.peek(), Tok::RParen) {
            assert(plist == prepend_index(done, start.dll_params(self.pos as int, seen))) by {
                match start.dll_params(p0, seen) {
                    Some((idx, e)) => { assert(done + idx =~= idx); },
                    None => {},
                }
            }
            loop
                invariant_except_break
                    plist == prepend_index(done, start.dll_params(self.pos as int, seen)),
                invariant
                    old(self).moved_to(*self),
                    old(self).pos < self.pos,
                    distinct_names(params@),
                    is_name(name@),
                    forall|k: int| 0 <= k < params@.len() ==> ffi_param(#[trigger] params@[k].1),
                    start == *old(self),
                    self.enums == start.enums,
                    plist is None ==> forall|d: DllDecl| !#[trigger] start.dll_decl_reads(d),
                    params@.len() == done.len() == seen.len(),
                    forall|k: int| 0 <= k < done.len() ==> word_tok(start.toks@[done[k]].tok, (#[trigger] params@[k]).0@)
                        && start.ffi_type_is(done[k] + 2, true, params@[k].1),
                    forall|k: int| 0 <= k < done.len() ==> (#[trigger] params@[k]).0@ == seen[k],
                ensures
                    plist == Some((done, self.pos as int)),
                    self.cur() is RParen,
                    old(self).moved_to(*self),
                    old(self).pos < self.pos,
                    distinct_names(params@),
                    forall|k: int| 0 <= k < params@.len() ==> ffi_param(#[trigger] params@[k].1),
                    self.enums == start.enums,
                    params@.len() == done.len(),
                    forall|k: int| 0 <= k < done.len() ==> word_tok(start.toks@[done[k]].tok, (#[trigger] params@[k]).0@)
                        && start.ffi_type_is(done[k] + 2, true, params@[k].1),
                decreases self.remaining(),
            {
                let ghost q = self.pos as int;
                let ghost seen0 = seen;
                let ghost done0 = done;
                proof {
                    if !(self.cur() is Ident) {
                        assert(start.dll_params(q, seen0) is None);
                    }
                }
                let pname = self.ident("parameter name")?;
                proof {
                    if !(self.cur() is Colon) {
                        assert(start.dll_params(q, seen0) is None);
                    }
                }
                self.expect(&Tok::Colon, "`:` after parameter name")?;
                let ghost rest = start.at(q + 2);
                assert(self.toks == rest.toks && self.pos == rest.pos && self.enums == rest.enums);
                assert forall|t: Ty, len: int| #![trigger self.reads_type(t, len)] #![trigger rest.reads_type(t, len)]
                    self.reads_type(t, len) == rest.reads_type(t, len) by {}
                proof {
                    assert(start.ffi_type_len(q + 2, true) == 0 ==> start.dll_params(q, seen0) is None);
                }
                let ghost pre = *self;
                let pty = match self.ffi_type(subject.as_str(), true) {
                    Ok(t) => t,
                    Err(e) => {
                        proof {
                            assert forall|l: int| !#[trigger] start.ffi_type_spans(q + 2, true, l) by {
                                assert forall|t: Ty| !#[trigger] start.ffi_type_at(q + 2, true, t, l) by {
                                    assert(pre.reads_type(t, l) == rest.reads_type(t, l));
                                }
                            }
                            assert(start.ffi_type_len(q + 2, true) == 0);
                        }
                        return Err(e);
                    },
                };
                let ghost len = self.pos - (q + 2);
                proof {
                    assert(start.ffi_type_at(q + 2, true, pty, len));
                    start.lemma_ffi_type_len(q + 2, true, pty, len);
                    assert(start.ffi_type_is(q + 2, true, pty));
                }
                if find_name(&params, pname.as_str()).is_some() {
                    proof {
                        let k = choose|k: int| 0 <= k < params@.len() && #[trigger] params@[k].0@ == pname@;
                        assert(seen[k] == pname@);
                        assert(seen.contains(pname@));
                        assert(start.dll_params(q, seen0) is None);
                    }
                    let mut msg = cat3("foreign function `", name.as_str(), "` declares parameter `");
                    push_str(&mut msg, pname.as_str());
                    push_str(&mut msg, "` twice");
                    return self.err(msg);
                }
                proof {
                    assert(!seen.contains(pname@)) by {
                        if seen.contains(pname@) {
                            let k = choose|k: int| 0 <= k < seen.len() && seen[k] == pname@;
                            assert(params@[k].0@ == pname@);
                        }
                    }
                }
                if matches!(self.peek(), Tok::Eq) {
                    proof {
                        assert(start.dll_params(q, seen0) is None);
                    }
                    let mut msg = cat3("foreign function `", name.as_str(), "`: parameter `");
                    push_str(&mut msg, pname.as_str());
                    push_str(&mut msg, "` cannot have a default — a `dll` names a C function, which has no say in what a missing argument means; write a `sub` that wraps it");
                    return self.err(msg);
                }
                let ghost pn = pname@;
                params.push((pname, pty));
                proof {
                    done = done.push(q);
                    seen = seen.push(pn);
                }
                let ghost after = self.pos as int;
                if matches!(self.peek(), Tok::Comma) {
                    self.bump();
                    if matches!(self.peek(), Tok::RParen) {
                        proof {
                            assert(start.dll_params(q, seen0) == Some((seq![q], after + 1)));
                            assert(done0 + seq![q] =~= done);
                        }
                        break;
                    }
                    proof {
                        let tail = start.dll_params(after + 1, seen);
                        assert(start.dll_params(q, seen0) == prepend_index(seq![q], tail));
                        match tail {
                            Some((idx, e)) => {
                                assert(done0 + (seq![q] + idx) =~= done + idx);
                            },
                            None => {},
                        }
                    }
                } else if matches!(self.peek(), Tok::RParen) {
                    proof {
                        assert(start.dll_params(q, seen0) == Some((seq![q], after)));
                        assert(done0 + seq![q] =~= done);
                    }
                    break;
                } else {
                    proof {
                        assert(start.dll_params(q, seen0) is None);
                    }
                    let msg = with_tok("expected `,` or `)` in parameters, found ", self.peek(), "");
                    return self.err(msg);
                }
            }
        } else {
            assert(done + Seq::<int>::empty() =~= done);
        }
        let ghost close = self.pos as int;
        assert(plist == Some((done, close)));
        self.expect(&Tok::RParen, "`)` after parameters")?;
        let ghost k = close + 1;

        let ghost before_ret = *self;
        let ret = if matches!(self.peek(), Tok::Colon) {
            self.bump();
            let ghost rest = start.at(k + 1);
            assert(self.toks == rest.toks && self.pos == rest.pos && self.enums == rest.enums);
            assert forall|t: Ty, len: int| #![trigger self.reads_type(t, len)] #![trigger rest.reads_type(t, len)]
                self.reads_type(t, len) == rest.reads_type(t, len) by {}
            let ghost pre = *self;
            let t = match self.ffi_type(subject.as_str(), false) {
                Ok(t) => t,
                Err(e) => {
                    proof {
                        assert forall|l: int| !#[trigger] start.ffi_type_spans(k + 1, false, l) by {
                            assert forall|t: Ty| !#[trigger] start.ffi_type_at(k + 1, false, t, l) by {
                                assert(pre.reads_type(t, l) == rest.reads_type(t, l));
                            }
                        }
                        assert(start.ffi_type_len(k + 1, false) == 0);
                    }
                    return Err(e);
                },
            };
            let ghost len = self.pos - (k + 1);
            proof {
                assert(start.ffi_type_at(k + 1, false, t, len));
                start.lemma_ffi_type_len(k + 1, false, t, len);
                assert(start.ffi_type_is(k + 1, false, t));
            }
            Some(t)
        } else {
            None
        };
        let ghost m = self.pos as int;
        assert(m == if start.tok(k) is Colon { k + 1 + start.ffi_type_len(k + 1, false) } else { k });

        if self.word_is("from") {
            self.bump();
        } else {
            let mut msg = cat3("foreign function `", name.as_str(), "` needs `from \"<library>\"`, found ");
            push_tok_debug(&mut msg, self.peek());
            return self.err(msg);
        }
        let library = match self.bump() {
            Tok::Str(s) => s,
            Tok::RawStr(s) => s,
            other => {
                let msg = with_tok("expected a library name in quotes after `from`, found ", &other, "");
                return self.err(msg);
            },
        };
        proof {
            lemma_encode_utf8_empty(library@);
        }
        if library.as_str().as_bytes().len() == 0 {
            proof {
                assert forall|d: DllDecl| !#[trigger] start.dll_decl_reads(d) by {
                    if start.dll_decl_reads(d) {
                        assert(start.dll_tail(k, d));
                        assert(quoted_tok(start.tok(m + 1), d.library@));
                        assert(d.library@ == library@);
                    }
                }
            }
            return self.err(cat3("foreign function `", name.as_str(), "`: the `from` library is empty"));
        }
        let ghost n = m + 2;
        assert(self.pos == n);

        let symbol = if self.word_is("as") {
            self.bump();
            match self.bump() {
                Tok::Str(s) | Tok::RawStr(s) => {
                    proof {
                        lemma_encode_utf8_empty(s@);
                    }
                    if s.as_str().as_bytes().len() > 0 {
                        Some(s)
                    } else {
                        proof {
                            assert forall|d: DllDecl| !#[trigger] start.dll_decl_reads(d) by {
                                if start.dll_decl_reads(d) {
                                    assert(start.dll_tail(k, d));
                                    assert(word_tok(start.tok(n), "as"@));
                                    assert(d.symbol is Some);
                                    assert(quoted_tok(start.tok(n + 1), d.symbol->0@));
                                    assert(d.symbol->0@ == s@);
                                }
                            }
                        }
                        return self.err(cat3("foreign function `", name.as_str(), "`: the `as` symbol name is empty"));
                    }
                },
                other => {
                    let msg = with_tok("expected a symbol name in quotes after `as`, found ", &other, "");
                    return self.err(msg);
                },
            }
        } else {
            None
        };
        let ghost n2 = self.pos as int;

        let conv = self.call_conv_opt(subject.as_str())?;
        if conv.is_some() && self.word_is("as") {
            return self.err(cat3("foreign function `", name.as_str(),
                "`: write `as \"symbol\"` before the calling convention, not after it"));
        }

        self.expect(&Tok::Newline, "newline after foreign function declaration")?;
        let d = DllDecl { name, params, ret, library, symbol, conv, line: dll_line, name_span };
        assert(start.dll_decl_reads(d));
        Ok(d)
    }

    /// A type in a C signature: the C-representable subset only.
    fn ffi_type(&mut self, subject: &str, allow_record: bool) -> (r: Result<Ty, ParseError>)
        requires
            old(self).wf(),
        ensures
            old(self).moved_to(*final(self)),
            r is Ok ==> final(self).pos > old(self).pos,
            final(self).hidden == old(self).hidden,
            final(self).pending == old(self).pending,
            r matches Ok(t) ==> c_representable(t) || (allow_record && t is Record),
            r matches Ok(t) ==> exists|len: int| #[trigger] old(self).reads_type(t, len) && final(self).pos == old(self).pos + len,
            r is Err ==> forall|t: Ty, len: int| #[trigger] old(self).reads_type(t, len)
                ==> !(c_representable(t) || (allow_record && t is Record)),
            final(self).enums == old(self).enums,
        decreases old(self).budget@, old(self).remaining(), 6nat,
    {
        let ghost start = *self;
        let t = self.type_keyword()?;
        let ghost len = choose|len: int| #[trigger] start.reads_type(t, len) && self.pos == start.pos + len;
        assert forall|t2: Ty, l2: int| #[trigger] start.reads_type(t2, l2)
            implies (t2 is Record) == (t is Record) && c_representable(t2) == c_representable(t) by {
            start.lemma_reads_type_unique(t, len, t2, l2);
        }
        match t {
            Ty::Int | Ty::Int64 | Ty::Double | Ty::Bool | Ty::Text | Ty::Ptr => Ok(t),
            Ty::Record(_) if allow_record => Ok(t),
            Ty::Record(n) => {
                let mut msg = cat3(subject, ": a C call cannot return the record `", n);
                push_str(&mut msg, "` by value — return a `ptr` to it (or an out-parameter typed `");
                push_str(&mut msg, n);
                push_str(&mut msg, "`)");
                self.err(msg)
            },
            other => {
                let mut msg = cat3(subject, ": `", other.as_str());
                push_str(&mut msg, "` cannot cross the C boundary — a C signature takes int, int64, double, bool, text, ptr or a c-record parameter");
                self.err(msg)
            },
        }
    }

    /// An optional calling-convention marker at the end of a `dll` or `sub`
    /// header: `stdcall`, `cdecl` or `system`.
    fn call_conv_opt(&mut self, what: &str) -> (r: Result<Option<CallConv>, ParseError>)
        requires
            old(self).wf(),
        ensures
            old(self).moved_to(*final(self)),
            final(self).hidden == old(self).hidden,
            final(self).pending == old(self).pending,
            match old(self).cur() {
                Tok::Ident(w) => match spec_call_conv_parse(w@) {
                    Some(c) => r == Ok::<Option<CallConv>, ParseError>(Some(c)) && final(self).pos == old(self).pos + 1,
                    None => (r matches Err(e) && e.line == old(self).toks@[old(self).pos as int].line)
                        && final(self).pos == old(self).pos,
                },
                _ => r == Ok::<Option<CallConv>, ParseError>(None) && final(self).pos == old(self).pos,
            },
            final(self).enums == old(self).enums,
    {
        let word = match self.peek() {
            Tok::Ident(w) => text(w.as_str()),
            _ => return Ok(None),
        };
        match CallConv::parse(word.as_str()) {
            Some(conv) => {
                self.bump();
                Ok(Some(conv))
            },
            None => {
                let mut msg = cat3(what, ": `", word.as_str());
                push_str(&mut msg, "` is not a calling convention — use stdcall, cdecl or system (or leave it off; on a 64-bit target they are the same)");
                self.err(msg)
            },
        }
    }

    /// `form := "form" IDENT NEWLINE member* "end" NEWLINE`
    fn form(&mut self) -> (r: Result<Form, ParseError>)
        requires
            old(self).wf(),
            old(self).cur() is Form,
        ensures
            old(self).moved_to(*final(self)),
            r is Ok ==> final(self).pos > old(self).pos,
        decreases old(self).budget@, old(self).remaining(), 80nat,
    {
        let first_line = self.line();
        self.expect(&Tok::Form, "`form`")?;
        let name = self.ident("form name")?;
        self.expect(&Tok::Newline, "newline after form name")?;

        let mut last_line = first_line;
        let mut properties: Vec<(String, Expr)> = Vec::new();
        let mut handlers: Vec<(String, String)> = Vec::new();
        let mut property_spans: Vec<Span> = Vec::new();
        let mut handler_spans: Vec<Span> = Vec::new();
        let mut children: Vec<Component> = Vec::new();
        loop
            invariant
                old(self).moved_to(*self),
                old(self).pos < self.pos,
            decreases self.remaining(),
        {
            self.skip_newlines();
            if matches!(self.peek(), Tok::End) {
                last_line = self.line();
                self.bump();
                break;
            } else if matches!(self.peek(), Tok::On) {
                let (event, handler, span) = self.binding()?;
                handlers.push((event, handler));
                handler_spans.push(span);
            } else if let Tok::Ident(w) = self.peek() {
                let first = text(w.as_str());
                let span = self.span_at(self.pos);
                self.bump();
                if matches!(self.peek(), Tok::Eq) {
                    self.bump();
                    let value = self.expr()?;
                    self.expect(&Tok::Newline, "newline after property")?;
                    properties.push((first, value));
                    property_spans.push(span);
                } else {
                    let c = self.component(first)?;
                    children.push(c);
                }
            } else if matches!(self.peek(), Tok::Eof) {
                return self.err(text("unexpected end of file inside `form` (missing `end`)"));
            } else {
                let msg = with_tok("expected a property, component, `on`, or `end`, found ", self.peek(), "");
                return self.err(msg);
            }
        }
        if matches!(self.peek(), Tok::Newline) {
            self.bump();
        }
        Ok(Form {
            name,
            line_span: (first_line, last_line),
            properties,
            handlers,
            property_spans,
            handler_spans,
            children,
        })
    }

    /// `enum := "enum" IDENT NEWLINE (IDENT ("," IDENT)* NEWLINE)+ "end" NEWLINE`
    ///
    /// Each member becomes a `const` named `Enum.member`, numbered from 1.
    fn enum_def(&mut self) -> (r: Result<Vec<ConstDef>, ParseError>)
        requires
            old(self).wf(),
            old(self).cur() is Ident,
        ensures
            old(self).moved_to(*final(self)),
            r is Ok ==> final(self).pos > old(self).pos,
            r matches Ok(cs) ==> cs@.len() > 0,
            r is Ok <==> old(self).enum_def_read() is Some,
            r matches Ok(cs) ==> match old(self).enum_def_read() {
                Some((nm, idx, e)) => {
                    &&& cs@.len() == idx.len()
                    &&& forall|k: int| 0 <= k < idx.len() ==> enum_const(old(self).toks@, nm, idx[k], k, #[trigger] cs@[k])
                    &&& final(self).pos == e + if old(self).toks@[e].tok is Newline { 1int } else { 0int }
                },
                None => false,
            },
        decreases old(self).budget@, old(self).remaining(), 80nat,
    {
        let ghost start = *self;
        let line = self.line();
        self.bump();
        let name = self.ident("enum name")?;
        self.expect(&Tok::Newline, "newline after the enum name")?;
        let ghost nm = name@;
        let ghost p0 = start.pos + 3;
        let ghost mut done: Seq<int> = Seq::empty();
        let ghost mut seen: Seq<Seq<char>> = Seq::empty();
        let mut out: Vec<ConstDef> = Vec::new();
        assert(enum_body(start.toks@, nm, p0, Seq::empty()) == prepend_index(done, enum_body(start.toks@, nm, p0, seen))) by {
            match enum_body(start.toks@, nm, p0, seen) {
                Some((idx, e)) => { assert(done + idx =~= idx); },
                None => {},
            }
        }
        loop
            invariant_except_break
                enum_body(start.toks@, nm, p0, Seq::empty()) == prepend_index(done, enum_body(start.toks@, nm, self.pos as int, seen)),
            invariant
                old(self).moved_to(*self),
                old(self).pos < self.pos,
                out@.len() <= self.pos,
                start == *old(self),
                word_tok(start.ahead(1), nm) && start.ahead(2) is Newline,
                p0 == start.pos + 3,
                p0 <= self.pos,
                out@.len() == done.len() == seen.len(),
                forall|k: int| 0 <= k < done.len() ==> enum_const(start.toks@, nm, done[k], k, #[trigger] out@[k]),
                forall|k: int| 0 <= k < done.len() ==> (#[trigger] out@[k]).name@ == seen[k],
                name@ == nm,
            ensures
                enum_body(start.toks@, nm, p0, Seq::empty()) == Some((done, self.pos as int)),
                out@.len() == done.len(),
                forall|k: int| 0 <= k < done.len() ==> enum_const(start.toks@, nm, done[k], k, #[trigger] out@[k]),
                old(self).moved_to(*self),
                start == *old(self),
            decreases self.remaining(),
        {
            let ghost before = self.pos as int;
            self.skip_newlines();
            proof {
                lemma_enum_body_skip(start.toks@, nm, before, self.pos as int, seen);
            }
            let ghost q = self.pos as int;
            let ghost seen0 = seen;
            let ghost done0 = done;
            assert(enum_body(start.toks@, nm, p0, Seq::empty()) == prepend_index(done0, enum_body(start.toks@, nm, q, seen0)));
            if matches!(self.peek(), Tok::End) {
                self.bump();
                proof {
                    assert(enum_body(start.toks@, nm, q, seen) == Some((Seq::<int>::empty(), q + 1)));
                    assert(done + Seq::<int>::empty() =~= done);
                }
                break;
            }
            if matches!(self.peek(), Tok::Eof) {
                let mut msg = cat3("unexpected end of file inside `enum ", name.as_str(), "` (missing `end`)");
                return self.err(msg);
            }
            let member_span = self.span_at(self.pos);
            let member = self.ident("a member name")?;
            let mut full = text(name.as_str());
            push_char(&mut full, '.');
            push_str(&mut full, member.as_str());
            let ghost fullv = full@;
            assert(fullv == nm + seq!['.'] + member@);
            if find_const(&out, full.as_str()) {
                proof {
                    let k = choose|k: int| 0 <= k < out@.len() && #[trigger] out@[k].name@ == fullv;
                    assert(seen[k] == fullv);
                    assert(seen.contains(fullv));
                }
                let mut msg = cat3("enum `", name.as_str(), "` declares `");
                push_str(&mut msg, member.as_str());
                push_str(&mut msg, "` twice");
                return self.err(msg);
            }
            proof {
                assert(!seen.contains(fullv)) by {
                    if seen.contains(fullv) {
                        let k = choose|k: int| 0 <= k < seen.len() && seen[k] == fullv;
                        assert(out@[k].name@ == fullv);
                    }
                }
            }
            let value = (out.len() + 1) as i64;
            out.push(ConstDef {
                name: full,
                value: Expr::IntLit(value),
                ty: Ty::Int,
                line: member_span.line,
                name_span: member_span,
            });
            proof {
                done = done.push(q);
                seen = seen.push(fullv);
            }
            if matches!(self.peek(), Tok::Comma) {
                self.bump();
            } else if matches!(self.peek(), Tok::Newline | Tok::End) {
            } else {
                let mut msg = cat3("expected `,`, a newline or `end` after enum member `", member.as_str(), "`, found ");
                push_tok_debug(&mut msg, self.peek());
                return self.err(msg);
            }
            proof {
                let rest = enum_body(start.toks@, nm, self.pos as int, seen);
                assert(q < start.toks@.len() - 1);
                assert(seen == seen0.push(fullv));
                assert(done == done0.push(q));
                assert(enum_body(start.toks@, nm, q, seen0) == prepend_index(seq![q], rest));
                match rest {
                    Some((idx, e)) => {
                        assert(done0 + (seq![q] + idx) =~= done + idx);
                    },
                    None => {},
                }
            }
        }
        if matches!(self.peek(), Tok::Newline) {
            self.bump();
        }
        if out.len() == 0 {
            return Err(ParseError { line, msg: cat3("enum `", name.as_str(), "` has no members") });
        }
        Ok(out)
    }

    /// `const := "const" IDENT "=" literal NEWLINE`
    fn const_def(&mut self) -> (r: Result<ConstDef, ParseError>)
        requires
            old(self).wf(),
            old(self).cur() is Ident,
        ensures
            old(self).moved_to(*final(self)),
            r is Ok ==> final(self).pos > old(self).pos,
            r matches Ok(c) ==> ({
                let lit = old(self).at(old(self).pos + 3);
                &&& word_tok(old(self).ahead(1), c.name@)
                &&& old(self).ahead(2) is Eq
                &&& lit.const_literal_result(Ok((c.value, c.ty)))
                &&& old(self).ahead(3 + lit.const_literal_len()) is Newline
                &&& final(self).pos == old(self).pos + 4 + lit.const_literal_len()
                &&& c.line == old(self).toks@[old(self).pos as int].line
                &&& c.name_span == (Span {
                    line: old(self).toks@[old(self).pos + 1].line,
                    col: old(self).toks@[old(self).pos + 1].col,
                    end_col: old(self).toks@[old(self).pos + 1].end_col,
                })
            }),
            r is Err ==> ({
                let lit = old(self).at(old(self).pos + 3);
                !(old(self).ahead(1) is Ident && old(self).ahead(2) is Eq
                    && (exists|v: (Expr, Ty)| #[trigger] lit.const_literal_result(Ok(v)))
                    && old(self).ahead(3 + lit.const_literal_len()) is Newline)
            }),
        decreases old(self).budget@, old(self).remaining(), 80nat,
    {
        let ghost start = *self;
        let line = self.line();
        self.bump();
        let name_span = self.span_at(self.pos);
        let name = self.ident("constant name")?;
        self.expect(&Tok::Eq, "`=` after a constant name")?;
        let ghost mid = *self;
        assert(mid.toks == start.toks && mid.pos == start.pos + 3);
        assert forall|x: Result<(Expr, Ty), ParseError>| #[trigger] mid.const_literal_result(x)
            == start.at(start.pos + 3).const_literal_result(x) by {}
        assert(mid.const_literal_len() == start.at(start.pos + 3).const_literal_len());
        let (value, ty) = self.const_literal(name.as_str())?;
        self.expect(&Tok::Newline, "newline after a constant")?;
        Ok(ConstDef { name, value, ty, line, name_span })
    }

    /// The literal on the right of `const NAME =`, with an optional leading
    /// `-` folded into the number.
    fn const_literal(&mut self, name: &str) -> (r: Result<(Expr, Ty), ParseError>)
        requires
            old(self).wf(),
        ensures
            old(self).moved_to(*final(self)),
            old(self).const_literal_result(r),
            r is Ok ==> final(self).pos == old(self).pos + if old(self).cur() is Minus { 2int } else { 1int },
    {
        let negate = matches!(self.peek(), Tok::Minus);
        if negate {
            self.bump();
        }
        let t = self.bump();
        let out_of_range = cat3("constant `", name, "`: the value is out of range");
        match t {
            Tok::Int(v) => {
                let v = if negate {
                    match negated(v) {
                        Some(n) => n,
                        None => return Err(ParseError { line: self.line(), msg: out_of_range }),
                    }
                } else {
                    v
                };
                let ty = if i32::MIN as i64 <= v && v <= i32::MAX as i64 { Ty::Int } else { Ty::Int64 };
                Ok((Expr::IntLit(v), ty))
            },
            Tok::Bits(v) => {
                if !negate {
                    Ok((Expr::BitsLit(v), bits_bare_type(v)))
                } else {
                    let n = match negated(bits_value(v)) {
                        Some(n) => n,
                        None => return Err(ParseError { line: self.line(), msg: out_of_range }),
                    };
                    let ty = if i32::MIN as i64 <= n && n <= i32::MAX as i64 { Ty::Int } else { Ty::Int64 };
                    Ok((Expr::IntLit(n), ty))
                }
            },
            Tok::Float(v) => Ok((Expr::DoubleLit(if negate { negate_decimal(v.as_str()) } else { v }), Ty::Double)),
            Tok::Str(s) => {
                if negate {
                    self.err(cat3("constant `", name, "`: `-` may only precede a number"))
                } else if text_has_hole(s.as_str()) {
                    self.err(cat3("constant `", name,
                        "` is a literal; string interpolation `{...}` needs values known only when the program runs"))
                } else {
                    Ok((Expr::TextLit(unescape_braces(s.as_str())), Ty::Text))
                }
            },
            Tok::RawStr(s) => {
                if negate {
                    self.err(cat3("constant `", name, "`: `-` may only precede a number"))
                } else {
                    Ok((Expr::TextLit(s), Ty::Text))
                }
            },
            Tok::True if negate => {
                self.err(cat3("constant `", name, "`: `-` may only precede a number"))
            },
            Tok::False if negate => {
                self.err(cat3("constant `", name, "`: `-` may only precede a number"))
            },
            Tok::True => Ok((Expr::BoolLit(true), Ty::Bool)),
            Tok::False => Ok((Expr::BoolLit(false), Ty::Bool)),
            other => {
                let mut msg = cat3("constant `", name, "` must be a literal (a number, a text or a bool), found ");
                push_tok_debug(&mut msg, &other);
                self.err(msg)
            },
        }
    }

    /// `record := "record" IDENT ("is" "c")? NEWLINE (IDENT ":" type NEWLINE)+ "end" NEWLINE`
    #[verifier::rlimit(60)]
    fn record_def(&mut self) -> (r: Result<RecordDef, ParseError>)
        requires
            old(self).wf(),
            old(self).cur() is Ident,
        ensures
            old(self).moved_to(*final(self)),
            r is Ok ==> final(self).pos > old(self).pos,
            r matches Ok(d) ==> distinct_names(d.fields@) && d.fields@.len() > 0 && is_name(d.name@),
            r is Ok <==> old(self).record_def_read() is Some,
            r matches Ok(d) ==> match old(self).record_def_read() {
                Some((nm, is_c, idx, e)) => {
                    &&& d.name@ == nm
                    &&& d.is_c == is_c
                    &&& d.line == old(self).toks@[old(self).pos as int].line
                    &&& d.fields@.len() == idx.len()
                    &&& forall|k: int| 0 <= k < idx.len() ==> old(self).record_field(idx[k], is_c, #[trigger] d.fields@[k])
                    &&& final(self).pos == e + if old(self).toks@[e].tok is Newline { 1int } else { 0int }
                },
                None => false,
            },
        decreases old(self).budget@, old(self).remaining(), 80nat,
    {
        let ghost start = *self;
        let line = self.line();
        self.bump();
        let name = self.ident("record name")?;
        let is_c = if self.word_is("is") {
            self.bump();
            let t = self.bump();
            if is_word(&t, "c") {
                true
            } else {
                let mut msg = cat3("expected `c` after `is` in `record ", name.as_str(), " is c`, found ");
                push_tok_debug(&mut msg, &t);
                return self.err(msg);
            }
        } else {
            false
        };
        self.expect(&Tok::Newline, "newline after record name")?;
        let ghost p0 = self.pos as int;
        let ghost mut done: Seq<int> = Seq::empty();
        let ghost mut seen: Seq<Seq<char>> = Seq::empty();
        assert(p0 == start.pos + if is_c { 5int } else { 3int });
        assert(start.record_body(p0, is_c, Seq::empty()) == prepend_index(done, start.record_body(p0, is_c, seen))) by {
            match start.record_body(p0, is_c, seen) {
                Some((idx, e)) => { assert(done + idx =~= idx); },
                None => {},
            }
        }
        let mut fields: Vec<(String, Ty)> = Vec::new();
        loop
            invariant_except_break
                start.record_body(p0, is_c, Seq::empty()) == prepend_index(done, start.record_body(self.pos as int, is_c, seen)),
            invariant
                old(self).moved_to(*self),
                old(self).pos < self.pos,
                distinct_names(fields@),
                is_name(name@),
                start == *old(self),
                p0 <= self.pos,
                start.record_body(p0, is_c, Seq::empty()) is None ==> start.record_def_read() is None,
                self.enums == start.enums,
                fields@.len() == done.len() == seen.len(),
                forall|k: int| 0 <= k < done.len() ==> start.record_field(done[k], is_c, #[trigger] fields@[k]),
                forall|k: int| 0 <= k < done.len() ==> (#[trigger] fields@[k]).0@ == seen[k],
            ensures
                start.record_body(p0, is_c, Seq::empty()) == Some((done, self.pos as int)),
                old(self).moved_to(*self),
                old(self).pos < self.pos,
                distinct_names(fields@),
                is_name(name@),
                start == *old(self),
                fields@.len() == done.len(),
                forall|k: int| 0 <= k < done.len() ==> start.record_field(done[k], is_c, #[trigger] fields@[k]),
            decreases self.remaining(),
        {
            let ghost before = self.pos as int;
            self.skip_newlines();
            proof {
                start.lemma_record_body_skip(before, self.pos as int, is_c, seen);
            }
            let ghost q = self.pos as int;
            let ghost seen0 = seen;
            let ghost done0 = done;
            if matches!(self.peek(), Tok::End) {
                self.bump();
                proof {
                    assert(start.record_body(q, is_c, seen) == Some((Seq::<int>::empty(), q + 1)));
                    assert(done + Seq::<int>::empty() =~= done);
                }
                break;
            } else if let Tok::Ident(w) = self.peek() {
                let field = text(w.as_str());
                self.bump();
                proof {
                    if !(self.cur() is Colon) {
                        assert(q < start.toks@.len() - 1);
                        assert(start.record_body(q, is_c, seen0) is None);
                    }
                }
                self.expect(&Tok::Colon, "`:` after a field name")?;
                let ghost rest = start.at(q + 2);
                assert(self.toks == rest.toks && self.pos == rest.pos && self.enums == rest.enums);
                assert forall|t: Ty, len: int| #![trigger self.reads_type(t, len)] #![trigger rest.reads_type(t, len)]
                    self.reads_type(t, len) == rest.reads_type(t, len) by {}
                assert forall|t: Ty, len: int| #![trigger self.reads_c_field(t, len)] #![trigger rest.reads_c_field(t, len)]
                    self.reads_c_field(t, len) == rest.reads_c_field(t, len) by {}
                let ty = if is_c {
                    self.crecord_field_type(name.as_str())?
                } else {
                    self.type_keyword()?
                };
                let ghost len = self.pos - (q + 2);
                proof {
                    assert(start.field_type_at(q + 2, is_c, ty, len));
                    start.lemma_field_type_len(q + 2, is_c, ty, len);
                }
                self.expect(&Tok::Newline, "newline after a field")?;
                if find_name(&fields, field.as_str()).is_some() {
                    proof {
                        let k = choose|k: int| 0 <= k < fields@.len() && #[trigger] fields@[k].0@ == field@;
                        assert(seen[k] == field@);
                        assert(seen.contains(field@));
                    }
                    let mut msg = cat3("record `", name.as_str(), "` declares field `");
                    push_str(&mut msg, field.as_str());
                    push_str(&mut msg, "` twice");
                    return self.err(msg);
                }
                proof {
                    assert(!seen.contains(field@)) by {
                        if seen.contains(field@) {
                            let k = choose|k: int| 0 <= k < seen.len() && seen[k] == field@;
                            assert(fields@[k].0@ == field@);
                        }
                    }
                    assert(word_tok(start.toks@[q].tok, field@));
                    assert(start.field_type_at(q + 2, is_c, ty, len));
                    assert(start.field_type_is(q + 2, is_c, ty));
                    assert(start.record_field(q, is_c, (field, ty)));
                }
                fields.push((field, ty));
                proof {
                    done = done.push(q);
                    seen = seen.push(field@);
                    let after = self.pos as int;
                    let tail = start.record_body(after, is_c, seen);
                    assert(q < start.toks@.len() - 1);
                    assert(start.record_body(q, is_c, seen0) == prepend_index(seq![q], tail));
                    match tail {
                        Some((idx, e)) => {
                            assert(done0 + (seq![q] + idx) =~= done + idx);
                        },
                        None => {},
                    }
                }
            } else if matches!(self.peek(), Tok::Eof) {
                return self.err(text("unexpected end of file inside `record` (missing `end`)"));
            } else {
                proof {
                    assert(start.record_body(q, is_c, seen0) is None);
                }
                let msg = with_tok("expected a field or `end`, found ", self.peek(), "");
                return self.err(msg);
            }
        }
        if matches!(self.peek(), Tok::Newline) {
            self.bump();
        }
        if fields.len() == 0 {
            return Err(ParseError {
                line,
                msg: cat3("record `", name.as_str(), "` has no fields — a record names a group of values"),
            });
        }
        Ok(RecordDef { name, fields, is_c, line })
    }

    /// A field type inside a `record NAME is c`.
    fn crecord_field_type(&mut self, rec: &str) -> (r: Result<Ty, ParseError>)
        requires
            old(self).wf(),
        ensures
            old(self).moved_to(*final(self)),
            r is Ok ==> final(self).pos > old(self).pos,
            r matches Ok(t) ==> exists|len: int| #[trigger] old(self).reads_c_field(t, len) && final(self).pos == old(self).pos + len,
            r is Err ==> forall|t: Ty, len: int| !#[trigger] old(self).reads_c_field(t, len),
            final(self).enums == old(self).enums,
    {
        let ghost start = *self;
        let ghost word: Seq<char> = match start.cur() { Tok::Ident(w) => w@, _ => Seq::empty() };
        let at_eof = matches!(self.peek(), Tok::Eof);
        let t = self.bump();
        let elem = match t {
            Tok::Ident(w) => {
                if str_eq(w.as_str(), "byte") {
                    Ty::Byte
                } else if str_eq(w.as_str(), "int16") || str_eq(w.as_str(), "word") {
                    Ty::Int16
                } else if str_eq(w.as_str(), "float") {
                    Ty::Float
                } else {
                    match Ty::from_keyword(w.as_str()) {
                        Some(t) => match t {
                            Ty::Int | Ty::Int64 | Ty::Double | Ty::Bool | Ty::Text | Ty::Ptr => t,
                            _ => {
                                let mut msg = cat3("c-record `", rec, "`: `");
                                push_str(&mut msg, t.as_str());
                                push_str(&mut msg, "` is not a C-layout field type — use int, int64, int16 (word), double, float, bool, text, ptr, byte, another `is c` record, or `T[N]`");
                                return self.err(msg);
                            },
                        },
                        None => Ty::Record(intern(w.as_str())),
                    }
                }
            },
            other => {
                let mut msg = cat3("c-record `", rec, "`: expected a field type, found ");
                push_tok_debug(&mut msg, &other);
                return self.err(msg);
            },
        };
        if matches!(self.peek(), Tok::LBrace) {
            let mut msg = cat3("c-record `", rec, "`: `");
            push_str(&mut msg, elem.as_str());
            push_str(&mut msg, "{}` is not a C-layout field type — a dictionary is a runtime-owned object; hold a `ptr` to bytes instead");
            return self.err(msg);
        }
        assert(c_field_elem(word, elem));
        if !matches!(self.peek(), Tok::LBracket) {
            assert(start.reads_c_field(elem, 1));
            return Ok(elem);
        }
        self.bump();
        let t = self.bump();
        let count = match t {
            Tok::Int(n) => {
                if n >= 1 {
                    n
                } else {
                    let mut msg = cat2("c-record `", rec);
                    push_str(&mut msg, "`: an array field holds at least one element, not ");
                    push_dec_i64(&mut msg, n);
                    return self.err(msg);
                }
            },
            Tok::RBracket => {
                let mut msg = cat3("c-record `", rec, "`: `");
                push_str(&mut msg, elem.as_str());
                push_str(&mut msg, "[]` is not a C-layout field type — a list is a runtime-owned object; give a count for a fixed inline array (`");
                push_str(&mut msg, elem.as_str());
                push_str(&mut msg, "[4]`), or hold a `ptr` to bytes");
                return self.err(msg);
            },
            other => {
                let mut msg = cat3("c-record `", rec, "`: an array field needs a literal count, as in `rgb: byte[32]` — found ");
                push_tok_debug(&mut msg, &other);
                return self.err(msg);
            },
        };
        self.expect(&Tok::RBracket, "`]` after an array field's count")?;
        if matches!(self.peek(), Tok::LBracket) {
            return self.err(cat3("c-record `", rec,
                "`: an array field is one dimension — `byte[4][4]` is not a field type; nest a record that holds `byte[4]` instead"));
        }
        if count > u32::MAX as i64 {
            let mut msg = cat3("c-record `", rec, "`: array count ");
            push_dec_i64(&mut msg, count);
            push_str(&mut msg, " is too large");
            return self.err(msg);
        }
        let r = carray(elem, count as u32);
        assert(start.reads_c_field(r, 4));
        Ok(r)
    }

    /// A component instance; `component_type` has already been consumed.
    fn component(&mut self, component_type: String) -> (r: Result<Component, ParseError>)
        requires
            old(self).wf(),
        ensures
            old(self).moved_to(*final(self)),
            r is Ok ==> final(self).pos > old(self).pos,
        decreases old(self).budget@, old(self).remaining(), 79nat,
    {
        let id = self.ident("component id")?;
        self.expect(&Tok::Newline, "newline after component id")?;
        let mut properties: Vec<(String, Expr)> = Vec::new();
        let mut handlers: Vec<(String, String)> = Vec::new();
        let mut property_spans: Vec<Span> = Vec::new();
        let mut handler_spans: Vec<Span> = Vec::new();
        loop
            invariant
                old(self).moved_to(*self),
                old(self).pos < self.pos,
            decreases self.remaining(),
        {
            self.skip_newlines();
            if matches!(self.peek(), Tok::End) {
                self.bump();
                break;
            } else if matches!(self.peek(), Tok::On) {
                let (event, handler, span) = self.binding()?;
                handlers.push((event, handler));
                handler_spans.push(span);
            } else if let Tok::Ident(w) = self.peek() {
                let name = text(w.as_str());
                let span = self.span_at(self.pos);
                self.bump();
                self.expect(&Tok::Eq, "`=` after property name")?;
                let value = self.expr()?;
                self.expect(&Tok::Newline, "newline after property")?;
                properties.push((name, value));
                property_spans.push(span);
            } else if matches!(self.peek(), Tok::Eof) {
                return self.err(text("unexpected end of file inside component (missing `end`)"));
            } else {
                let msg = with_tok("expected a property, `on`, or `end`, found ", self.peek(), "");
                return self.err(msg);
            }
        }
        if matches!(self.peek(), Tok::Newline) {
            self.bump();
        }
        Ok(Component { component_type, id, properties, handlers, property_spans, handler_spans })
    }

    /// `on <event>: <subroutine>`, and the span of the event name.
    fn binding(&mut self) -> (r: Result<(String, String, Span), ParseError>)
        requires
            old(self).wf(),
        ensures
            old(self).moved_to(*final(self)),
            r is Ok ==> final(self).pos > old(self).pos,
            r is Ok <==> old(self).cur() is On && old(self).ahead(1) is Ident && old(self).ahead(2) is Colon
                && old(self).ahead(3) is Ident && old(self).ahead(4) is Newline,
            r matches Ok((event, handler, span)) ==> word_tok(old(self).ahead(1), event@)
                && word_tok(old(self).ahead(3), handler@) && final(self).pos == old(self).pos + 5
                && span == (Span {
                    line: old(self).toks@[old(self).pos + 1].line,
                    col: old(self).toks@[old(self).pos + 1].col,
                    end_col: old(self).toks@[old(self).pos + 1].end_col,
                }),
    {
        self.expect(&Tok::On, "`on`")?;
        let span = self.span_at(self.pos);
        let event = self.ident("event name")?;
        self.expect(&Tok::Colon, "`:` after event name")?;
        let handler = self.ident("handler subroutine name")?;
        self.expect(&Tok::Newline, "newline after event binding")?;
        Ok((event, handler, span))
    }

    /// A module-level `var NAME: TY = EXPR`.
    fn global_var(&mut self) -> (r: Result<GlobalVar, ParseError>)
        requires
            old(self).wf(),
        ensures
            old(self).moved_to(*final(self)),
            r is Ok ==> final(self).pos > old(self).pos,
            !(old(self).cur() is Var && old(self).ahead(1) is Ident && old(self).ahead(2) is Colon
                && exists|t: Ty, len: int| #[trigger] old(self).at(old(self).pos + 3).reads_type(t, len)) ==> r is Err,
            r matches Ok(g) ==> word_tok(old(self).ahead(1), g.name@)
                && exists|len: int| #[trigger] old(self).at(old(self).pos + 3).reads_type(g.ty, len)
                    && old(self).ahead(3 + len) is Eq,
        decreases old(self).budget@, old(self).remaining(), 80nat,
    {
        let ghost start = *self;
        self.expect(&Tok::Var, "`var`")?;
        let name = self.ident("variable name")?;
        self.expect(&Tok::Colon, "`:` after variable name")?;
        let ghost rest = start.at(start.pos + 3);
        assert(self.toks == rest.toks && self.pos == rest.pos && self.enums == rest.enums);
        assert forall|t: Ty, len: int| #![trigger self.reads_type(t, len)] #![trigger rest.reads_type(t, len)]
            self.reads_type(t, len) == rest.reads_type(t, len) by {}
        let ty = self.type_keyword()?;
        self.expect(&Tok::Eq, "`=`")?;
        let value = self.expr()?;
        self.expect(&Tok::Newline, "newline after `var`")?;
        Ok(GlobalVar { name, ty, value })
    }

    /// `type := IDENT ("[" "]" | "{" "}")?`
    ///
    /// A trailing `?` (an optional) belongs to a local's type alone; the
    /// token stream has no `?`, so no type read here carries one.
    fn type_keyword(&mut self) -> (r: Result<Ty, ParseError>)
        requires
            old(self).wf(),
        ensures
            old(self).moved_to(*final(self)),
            r is Ok ==> final(self).pos > old(self).pos,
            final(self).hidden == old(self).hidden,
            final(self).pending == old(self).pending,
            r matches Ok(t) ==> exists|len: int| #[trigger] old(self).reads_type(t, len) && final(self).pos == old(self).pos + len,
            r is Err ==> forall|t: Ty, len: int| !#[trigger] old(self).reads_type(t, len),
            final(self).enums == old(self).enums,
        decreases old(self).budget@, old(self).remaining(), 5nat,
    {
        self.type_inner()
    }

    /// The type in a `let` / `var` inside a subroutine.
    fn local_type(&mut self) -> (r: Result<Ty, ParseError>)
        requires
            old(self).wf(),
        ensures
            old(self).moved_to(*final(self)),
            r is Ok ==> final(self).pos > old(self).pos,
            final(self).hidden == old(self).hidden,
            final(self).pending == old(self).pending,
            r matches Ok(t) ==> exists|len: int| #[trigger] old(self).reads_type(t, len) && final(self).pos == old(self).pos + len,
            r is Err ==> forall|t: Ty, len: int| !#[trigger] old(self).reads_type(t, len),
            final(self).enums == old(self).enums,
        decreases old(self).budget@, old(self).remaining(), 5nat,
    {
        self.type_inner()
    }

    fn type_inner(&mut self) -> (r: Result<Ty, ParseError>)
        requires
            old(self).wf(),
        ensures
            old(self).moved_to(*final(self)),
            r is Ok ==> final(self).pos > old(self).pos,
            final(self).hidden == old(self).hidden,
            final(self).pending == old(self).pending,
            r matches Ok(t) ==> exists|len: int| #[trigger] old(self).reads_type(t, len) && final(self).pos == old(self).pos + len,
            r is Err ==> forall|t: Ty, len: int| !#[trigger] old(self).reads_type(t, len),
            final(self).enums == old(self).enums,
        decreases old(self).budget@, old(self).remaining(), 4nat,
    {
        let ghost start = *self;
        let at_eof = matches!(self.peek(), Tok::Eof);
        let t = self.bump();
        let ghost word: Seq<char> = match start.cur() { Tok::Ident(w) => w@, _ => Seq::empty() };
        let base = match t {
            Tok::Ident(w) => match Ty::from_keyword(w.as_str()) {
                Some(t) => t,
                None => if enum_get(&self.enums, w.as_str()).is_some() { Ty::Int } else { Ty::Record(intern(w.as_str())) },
            },
            other => {
                let msg = with_tok("expected a type, found ", &other, "");
                return self.err(msg);
            },
        };
        assert(names_ty(start.enums@, word, base));
        let is_list = if matches!(self.peek(), Tok::LBracket) {
            true
        } else if matches!(self.peek(), Tok::LBrace) {
            false
        } else {
            assert(start.reads_type(base, 1));
            return Ok(base);
        };
        let what = if is_list { "a list" } else { "a dictionary" };
        self.bump();
        if is_list {
            self.expect(&Tok::RBracket, "`]` after `[` in an array type")?;
        } else {
            self.expect(&Tok::RBrace, "`}` after `{` in a dictionary type")?;
        }
        if matches!(self.peek(), Tok::LBracket | Tok::LBrace) {
            return self.err(cat2(what, " cannot hold arrays or dictionaries — `int[][]` is not a type"));
        }
        match Elem::from_ty(base) {
            Some(e) => {
                let r = if is_list { Ty::Array(e) } else { Ty::Dict(e) };
                assert(start.reads_type(r, 3));
                Ok(r)
            },
            None => {
                assert forall|b: Ty| #[trigger] names_ty(start.enums@, word, b) implies ty_elem(b) is None by {
                    if b is Record {
                        assert(base is Record);
                    }
                }
                let mut msg = cat3(what, " cannot hold ", base.as_str());
                push_str(&mut msg, " values");
                self.err(msg)
            },
        }
    }

    /// A statement starting with an identifier: one of the soft-keyword
    /// statements, an assignment, or a property-set.
    fn stmt_ident(&mut self) -> (r: Result<Option<Stmt>, ParseError>)
        requires
            old(self).wf(),
            old(self).cur() is Ident,
        ensures
            old(self).moved_to(*final(self)),
            r is Ok ==> final(self).pos > old(self).pos,
        decreases old(self).budget@, old(self).remaining(), 48nat,
    {
        let start = self.pos;
        if self.leads_stmt("match") {
            return Ok(Some(self.stmt_match()?));
        }
        if self.leads_stmt("repeat") {
            return Ok(Some(self.stmt_repeat()?));
        }
        if self.leads_stmt("assert") {
            return self.stmt_assert();
        }
        if self.leads_stmt("defer") {
            return Ok(Some(self.stmt_defer()?));
        }
        if self.is_check_kw() {
            self.bump();
            let e = self.expr()?;
            let (cmd, args) = match e {
                Expr::Call { cmd, args } => (cmd, args),
                _ => {
                    return self.err(text("`check` on its own line guards a call — write `check name(...)`, or bind the value with `let x: T = check name(...)`"));
                },
            };
            if matches!(self.peek(), Tok::Newline) {
                self.bump();
            } else if matches!(self.peek(), Tok::Eof) {
            } else {
                let msg = with_tok("expected a newline after `check`, found ", self.peek(),
                    "; a one-line `if` cannot guard a `check`, because the propagation would not be guarded with it");
                return self.err(msg);
            }
            let stmt = self.finish(StmtKind::Call { cmd, args }, start);
            let guard = self.check_guard(start)?;
            self.pending.push(guard);
            return Ok(Some(stmt));
        }
        if (self.word_is("increment") || self.word_is("decrement")) && matches!(self.peek_at(1), Tok::Ident(_)) {
            let up = self.word_is("increment");
            self.bump();
            let target = self.ident("the name to increment or decrement")?;
            let lv = self.parse_lvalue(target)?;
            let op = if up { BinOp::Add } else { BinOp::Sub };
            let value = Expr::Bin(op, Box::new(lv.read()), Box::new(Expr::IntLit(1)));
            let kind = lv.write(value);
            let st = self.finish_simple(kind, start)?;
            return Ok(Some(st));
        }
        let name = self.ident("variable or component name")?;
        let lv = self.parse_lvalue(name)?;
        let op = match self.assign_op() {
            Some(op) => op,
            None => {
                let msg = with_tok("expected `=`, a compound assignment (`+=`, `-=`, `*=`, `/=`, `mod=`, `&=`), `[` (element) or `.` (property), found ", self.peek(), "");
                return self.err(msg);
            },
        };
        let rhs = self.expr()?;
        let value = apply_assign_op(op, lv.read(), rhs);
        let kind = lv.write(value);
        let st = self.finish_simple(kind, start)?;
        Ok(Some(st))
    }

    /// An assignment target, with the leading `name` already read.
    fn parse_lvalue(&mut self, name: String) -> (r: Result<Lvalue, ParseError>)
        requires
            old(self).wf(),
        ensures
            old(self).moved_to(*final(self)),
            !(old(self).cur() is LBracket || old(self).cur() is Dot)
                ==> r == Ok::<Lvalue, ParseError>(Lvalue::Var(name)) && final(self).pos == old(self).pos,
            old(self).cur() is Dot && !(old(self).ahead(1) is Ident) ==> r is Err,
            old(self).cur() is Dot && old(self).ahead(1) is Ident && !(old(self).ahead(2) is Dot || old(self).ahead(2) is LBracket)
                ==> (r matches Ok(Lvalue::Property { component, property }) && component == name
                    && word_tok(old(self).ahead(1), property@)) && final(self).pos == old(self).pos + 2,
        decreases old(self).budget@, old(self).remaining(), 44nat,
    {
        if matches!(self.peek(), Tok::LBracket) {
            self.bump();
            let index = self.expr()?;
            if matches!(self.peek(), Tok::DotDot) {
                return self.err(text("a slice `a..b` is a value, not a place — assign to one position at a time, or build the new collection and assign that"));
            }
            self.expect(&Tok::RBracket, "`]` after the index")?;
            if matches!(self.peek(), Tok::Dot | Tok::LBracket) {
                let base = Expr::Index { base: Box::new(Expr::Var(name)), index: Box::new(index) };
                let place = self.parse_place_tail(base)?;
                return Ok(Lvalue::Place(place));
            }
            Ok(Lvalue::Index { name, index })
        } else if matches!(self.peek(), Tok::Dot) {
            self.bump();
            let property = self.ident("property name")?;
            if matches!(self.peek(), Tok::Dot | Tok::LBracket) {
                let base = Expr::GetProperty { component: name, property };
                let place = self.parse_place_tail(base)?;
                return Ok(Lvalue::Place(place));
            }
            Ok(Lvalue::Property { component: name, property })
        } else {
            Ok(Lvalue::Var(name))
        }
    }

    /// The `.field` / `[index]` steps of a multi-step target after `base`.
    fn parse_place_tail(&mut self, base: Expr) -> (r: Result<Expr, ParseError>)
        requires
            old(self).wf(),
        ensures
            old(self).moved_to(*final(self)),
            !(old(self).cur() is Dot || old(self).cur() is LBracket)
                ==> r == Ok::<Expr, ParseError>(base) && final(self).pos == old(self).pos,
            old(self).cur() is Dot && !(old(self).ahead(1) is Ident) ==> r is Err,
        decreases old(self).budget@, old(self).remaining(), 43nat,
    {
        let mut place = base;
        loop
            invariant
                old(self).moved_to(*self),
                self.pos == old(self).pos ==> place == base,
                !(old(self).cur() is Dot || old(self).cur() is LBracket) ==> self.pos == old(self).pos,
                old(self).cur() is Dot && !(old(self).ahead(1) is Ident) ==> self.pos == old(self).pos,
            ensures
                old(self).moved_to(*self),
                self.pos == old(self).pos ==> place == base,
                !(old(self).cur() is Dot || old(self).cur() is LBracket) ==> self.pos == old(self).pos,
                !(self.cur() is Dot || self.cur() is LBracket),
            decreases self.remaining(),
        {
            if matches!(self.peek(), Tok::Dot) {
                self.bump();
                let field = self.ident("a field name after `.`")?;
                place = Expr::Field { base: Box::new(place), name: field };
            } else if matches!(self.peek(), Tok::LBracket) {
                self.bump();
                let index = self.expr()?;
                if matches!(self.peek(), Tok::DotDot) {
                    return self.err(text("a slice `a..b` is a value, not a place — assign to one position at a time, or build the new collection and assign that"));
                }
                self.expect(&Tok::RBracket, "`]` after the index")?;
                place = Expr::Index { base: Box::new(place), index: Box::new(index) };
            } else {
                break;
            }
        }
        Ok(place)
    }

    /// An assignment operator in target position.
    fn assign_op(&mut self) -> (r: Option<AssignOp>)
        requires
            old(self).wf(),
        ensures
            r == old(self).assign_at(),
            final(self).pos == old(self).pos + (match r {
                Some(AssignOp::Bin(BinOp::Rem)) => 2int,
                Some(_) => 1int,
                None => 0int,
            }),
            old(self).moved_to(*final(self)),
            final(self).hidden == old(self).hidden,
            final(self).pending == old(self).pending,
    {
        if self.word_is("mod") && matches!(self.peek_at(1), Tok::Eq) {
            self.bump();
            self.bump();
            return Some(AssignOp::Bin(BinOp::Rem));
        }
        let op = if matches!(self.peek(), Tok::Eq) {
            AssignOp::Plain
        } else if matches!(self.peek(), Tok::PlusEq) {
            AssignOp::Bin(BinOp::Add)
        } else if matches!(self.peek(), Tok::MinusEq) {
            AssignOp::Bin(BinOp::Sub)
        } else if matches!(self.peek(), Tok::StarEq) {
            AssignOp::Bin(BinOp::Mul)
        } else if matches!(self.peek(), Tok::SlashEq) {
            AssignOp::Bin(BinOp::Div)
        } else if matches!(self.peek(), Tok::AmpEq) {
            AssignOp::Concat
        } else {
            return None;
        };
        self.bump();
        Some(op)
    }

    /// End a simple statement: consume the trailing newline, or fold a
    /// one-line `STMT if COND` suffix into an ordinary `if`.
    fn finish_simple(&mut self, kind: StmtKind, start: usize) -> (r: Result<Stmt, ParseError>)
        requires
            old(self).wf(),
        ensures
            old(self).moved_to(*final(self)),
            old(self).cur() is Newline ==> (r matches Ok(st) && header_stmt(old(self).toks@, kind, start as int, st))
                && final(self).pos == old(self).pos + 1,
            old(self).cur() is Eof ==> (r matches Ok(st) && header_stmt(old(self).toks@, kind, start as int, st))
                && final(self).pos == old(self).pos,
            !(old(self).cur() is If || old(self).cur() is Newline || old(self).cur() is Eof) ==> (r matches Err(e)
                && e.msg@ == "expected a newline or a one-line `if` after the statement, found "@ + tok_debug(old(self).cur())
                && e.line == old(self).toks@[old(self).pos as int].line),
            old(self).cur() is If ==> (r matches Ok(st) ==> (st.kind matches StmtKind::If { arms, otherwise }
                && otherwise is None && arms@.len() == 1 && arms@[0].1@.len() == 1
                && header_stmt(old(self).toks@, kind, start as int, arms@[0].1@[0])
                && header_stmt(old(self).toks@, st.kind, old(self).pos as int, st))),
        decreases old(self).budget@, old(self).remaining(), 42nat,
    {
        if matches!(self.peek(), Tok::If) {
            let inner = self.finish(kind, start);
            let if_start = self.pos;
            self.bump();
            let cond = self.expr()?;
            self.expect(&Tok::Newline, "newline after a one-line `if` condition")?;
            return Ok(self.finish(StmtKind::If { arms: vec![(cond, vec![inner])], otherwise: None }, if_start));
        }
        if matches!(self.peek(), Tok::Newline) {
            self.bump();
        } else if matches!(self.peek(), Tok::Eof) {
        } else {
            let msg = with_tok("expected a newline or a one-line `if` after the statement, found ", self.peek(), "");
            proof {
                reveal_strlit("");
                assert(msg@ == "expected a newline or a one-line `if` after the statement, found "@ + tok_debug(self.cur()));
            }
            return self.err(msg);
        }
        Ok(self.finish(kind, start))
    }

    /// Whether the cursor is on `check` used as the propagation keyword.
    fn is_check_kw(&self) -> (r: bool)
        requires
            self.wf(),
        ensures
            r == self.leads_soft("check"@),
            r ==> self.cur() is Ident,
    {
        if !self.word_is("check") {
            return false;
        }
        match self.peek_at(1) {
            Tok::Ident(w) => !is_infix_word(w.as_str()),
            _ => false,
        }
    }

    /// The guard `check` expands to: `if last_error_code() <> 0 <return> end`.
    fn check_guard(&self, start: usize) -> (r: Result<Stmt, ParseError>)
        requires
            self.wf(),
            start < self.toks@.len(),
        ensures
            r is Ok <==> self.in_sub && has_failure_value(self.cur_ret),
            r matches Err(e) ==> e.line == self.toks@[start as int].line,
            !self.in_sub ==> (r matches Err(e)
                && e.msg@ == "`check` returns from the subroutine it is in, and there is none here"@),
            r matches Ok(st) ==> (st.kind matches StmtKind::If { arms, otherwise }
                && otherwise is None && arms@.len() == 1 && error_code_test(arms@[0].0)
                && arms@[0].1@.len() == 1
                && (arms@[0].1@[0].kind matches StmtKind::Return { value } && failure_value(self.cur_ret, value))
                && header_stmt(self.toks@, arms@[0].1@[0].kind, start as int, arms@[0].1@[0])
                && header_stmt(self.toks@, st.kind, start as int, st)),
    {
        if !self.in_sub {
            return Err(ParseError {
                line: self.toks[start].line,
                msg: text("`check` returns from the subroutine it is in, and there is none here"),
            });
        }
        let value = match self.cur_ret {
            None => None,
            Some(Ty::Int) | Some(Ty::Int64) => Some(Expr::IntLit(0)),
            Some(Ty::Double) => Some(Expr::DoubleLit(text("0.0"))),
            Some(Ty::Text) => Some(Expr::TextLit(String::new())),
            Some(Ty::Bool) => Some(Expr::BoolLit(false)),
            Some(Ty::Ptr) => Some(Expr::Call { cmd: text("ptr_null"), args: Vec::new() }),
            Some(t) => {
                let mut msg = cat2("`check` returns early on failure, and ", t.as_str());
                push_str(&mut msg, " has no failure value to return — test `last_error_code()` yourself here");
                return Err(ParseError { line: self.toks[start].line, msg });
            },
        };
        let ret = self.finish(StmtKind::Return { value }, start);
        Ok(self.finish(
            StmtKind::If {
                arms: vec![(
                    Expr::Cmp(
                        CmpOp::Ne,
                        Box::new(Expr::Call { cmd: text("last_error_code"), args: Vec::new() }),
                        Box::new(Expr::IntLit(0)),
                    ),
                    vec![ret],
                )],
                otherwise: None,
            },
            start,
        ))
    }

    /// Whether the cursor is on `word` used as a statement keyword: only when
    /// what follows could not continue an assignment to a variable so named.
    fn leads_stmt(&self, word: &str) -> (r: bool)
        requires
            self.wf(),
        ensures
            r == self.leads_statement(word@),
            r ==> self.cur() is Ident,
    {
        if !self.word_is(word) {
            return false;
        }
        let next = self.peek_at(1);
        if matches!(next, Tok::Eq | Tok::PlusEq | Tok::MinusEq | Tok::StarEq | Tok::SlashEq | Tok::AmpEq
            | Tok::LBracket | Tok::Dot) {
            false
        } else if is_word(next, "mod") && matches!(self.peek_at(2), Tok::Eq) {
            false
        } else if matches!(next, Tok::Newline | Tok::Eof) {
            false
        } else {
            true
        }
    }

    /// A name no program can write, for a binding the program never sees.
    fn fresh_hidden(&mut self, tag: &str) -> (r: String)
        requires
            old(self).wf(),
            old(self).hidden < old(self).pos,
        ensures
            final(self).toks == old(self).toks,
            final(self).budget == old(self).budget,
            final(self).pos == old(self).pos,
            final(self).wf(),
            final(self).pending == old(self).pending,
            final(self).hidden == old(self).hidden + 1,
            r@ == "$"@ + tag@ + "$"@ + dec(final(self).hidden as nat),
    {
        self.hidden = self.hidden + 1;
        let mut s = text("$");
        push_str(&mut s, tag);
        push_char(&mut s, '$');
        proof {
            reveal_strlit("$");
            assert(s@ =~= "$"@ + tag@ + "$"@);
        }
        push_dec(&mut s, self.hidden as u64);
        s
    }

    /// `defer STMT` — one statement, run when the block it was written in is
    /// left.
    fn stmt_defer(&mut self) -> (r: Result<Stmt, ParseError>)
        requires
            old(self).wf(),
            old(self).cur() is Ident,
        ensures
            old(self).moved_to(*final(self)),
            r is Ok ==> final(self).pos > old(self).pos,
        decreases old(self).budget@, old(self).remaining(), 46nat,
    {
        let start = self.pos;
        self.bump();
        let line = self.line();
        let inner = match self.statement()? {
            Some(st) => st,
            None => return Err(ParseError { line, msg: text("`defer` needs a statement to run") }),
        };
        if self.pending.len() > 0 {
            self.pending.clear();
            return Err(ParseError {
                line,
                msg: text("`defer check ...` would run the failure guard where the `defer` is written and the call at the end of the block; write `defer call name(...)`"),
            });
        }
        let refuse = match &inner.kind {
            StmtKind::If { .. } => Some("an `if` is a block of its own, and its end is not the end of this one"),
            StmtKind::While { .. } | StmtKind::For { .. } | StmtKind::ForEach { .. } => Some("a loop is a block of its own"),
            StmtKind::Match { .. } => Some("a `match` is a block of its own"),
            StmtKind::Let { .. } | StmtKind::LetInfer { .. } => Some("a binding made at the end of a block could never be read"),
            StmtKind::Return { .. } => Some("a deferred `return` would leave the subroutine from its own cleanup"),
            StmtKind::Break | StmtKind::Continue => Some("a deferred jump would leave the loop from its own cleanup"),
            StmtKind::Defer(_) => Some("a `defer` of a `defer` says nothing the first did not"),
            _ => None,
        };
        match refuse {
            Some(what) => {
                let msg = cat3("`defer` runs one simple statement when the block ends — ", what,
                    ". Write the call, assignment or property write you want to happen last");
                Err(ParseError { line, msg })
            },
            None => Ok(self.finish(StmtKind::Defer(Box::new(inner)), start)),
        }
    }

    /// `match E` / `when V1, V2: ...` / `else: ...` / `end`.
    fn stmt_match(&mut self) -> (r: Result<Stmt, ParseError>)
        requires
            old(self).wf(),
            old(self).cur() is Ident,
        ensures
            old(self).moved_to(*final(self)),
            r matches Ok(st) ==> header_stmt(old(self).toks@, st.kind, old(self).pos as int, st) && st.kind is Match,
            r is Ok ==> final(self).pos > old(self).pos,
        decreases old(self).budget@, old(self).remaining(), 46nat,
    {
        let start = self.pos;
        self.bump();
        let scrutinee = self.expr()?;
        self.expect(&Tok::Newline, "newline after the value a `match` tests")?;
        let mut arms: Vec<(Vec<Expr>, Vec<Stmt>)> = Vec::new();
        let mut otherwise: Option<Vec<Stmt>> = None;
        loop
            invariant
                old(self).moved_to(*self),
                old(self).pos < self.pos,
            decreases self.remaining(),
        {
            let ghost before: nat = self.remaining();
            self.skip_newlines();
            if self.word_is("when") {
                self.bump();
                let first = self.expr()?;
                let mut values: Vec<Expr> = vec![first];
                while matches!(self.peek(), Tok::Comma)
                    invariant
                        old(self).moved_to(*self),
                        old(self).pos < self.pos,
                        self.remaining() < before,
                    decreases self.remaining(),
                {
                    self.bump();
                    let v = self.expr()?;
                    values.push(v);
                }
                self.expect(&Tok::Colon, "`:` after the values a `when` matches")?;
                let body = self.arm_body()?;
                arms.push((values, body));
            } else if matches!(self.peek(), Tok::Else) {
                self.bump();
                self.expect(&Tok::Colon, "`:` after `else`")?;
                otherwise = Some(self.arm_body()?);
                self.skip_newlines();
                self.expect(&Tok::End, "`end` after the `else` of a `match`")?;
                break;
            } else if matches!(self.peek(), Tok::End) {
                self.bump();
                break;
            } else {
                let msg = with_tok("expected `when`, `else` or `end` in a `match`, found ", self.peek(), "");
                return self.err(msg);
            }
        }
        if arms.len() == 0 {
            return self.err(text("a `match` needs at least one `when`"));
        }
        if matches!(self.peek(), Tok::Newline) {
            self.bump();
        }
        Ok(self.finish(StmtKind::Match { scrutinee, arms, otherwise }, start))
    }

    /// The body of one `when` or `else`, with the `:` already read.
    fn arm_body(&mut self) -> (r: Result<Vec<Stmt>, ParseError>)
        requires
            old(self).wf(),
        ensures
            old(self).moved_to(*final(self)),
            old(self).cur() is Newline ==> forall|i: int| #[trigger] newlines_skipped(old(self).toks@, old(self).pos + 1, i)
                && old(self).toks@[i].tok is End ==> (r matches Ok(b) && b@.len() == 0) && final(self).pos == i,
        decreases old(self).budget@, old(self).remaining(), 53nat,
    {
        if !matches!(self.peek(), Tok::Newline) {
            let mut body: Vec<Stmt> = Vec::new();
            if let Some(st) = self.statement()? {
                body.push(st);
            }
            body.append(&mut self.pending);
            return Ok(body);
        }
        self.bump();
        self.block_until(Stop::Arm)
    }

    /// `repeat N times NEWLINE ... end` — a counted loop with no visible index.
    fn stmt_repeat(&mut self) -> (r: Result<Stmt, ParseError>)
        requires
            old(self).wf(),
            old(self).cur() is Ident,
        ensures
            old(self).moved_to(*final(self)),
            r matches Ok(st) ==> header_stmt(old(self).toks@, st.kind, old(self).pos as int, st) && st.kind is For,
            r is Ok ==> final(self).pos > old(self).pos,
        decreases old(self).budget@, old(self).remaining(), 46nat,
    {
        let head = self.pos;
        self.bump();
        let count = self.expr()?;
        if self.word_is("times") {
            self.bump();
        } else {
            let msg = with_tok("expected `times` after the count in `repeat N times`, found ", self.peek(), "");
            return self.err(msg);
        }
        self.expect(&Tok::Newline, "newline after `repeat N times`")?;
        let body = self.block_until(Stop::End)?;
        self.expect(&Tok::End, "`end`")?;
        if matches!(self.peek(), Tok::Newline) {
            self.bump();
        }
        let var = self.fresh_hidden("repeat");
        Ok(self.finish(StmtKind::For { var, start: Expr::IntLit(1), limit: count, step: 1, body }, head))
    }

    /// `assert := "assert" expr ("," expr)? NEWLINE`
    fn stmt_assert(&mut self) -> (r: Result<Option<Stmt>, ParseError>)
        requires
            old(self).wf(),
            old(self).cur() is Ident,
        ensures
            old(self).moved_to(*final(self)),
            r is Ok ==> final(self).pos > old(self).pos,
        decreases old(self).budget@, old(self).remaining(), 46nat,
    {
        let start = self.pos;
        self.bump();
        let cond_start = self.pos;
        let cond = self.expr()?;
        let cond_end = self.pos;
        let message = if matches!(self.peek(), Tok::Comma) {
            self.bump();
            self.expr()?
        } else {
            let mut m = text("assertion failed: ");
            let quoted = self.source_between(cond_start, cond_end);
            push_str(&mut m, quoted.as_str());
            Expr::TextLit(m)
        };
        if matches!(self.peek(), Tok::Newline) {
            self.bump();
        } else if matches!(self.peek(), Tok::Eof) {
        } else {
            let msg = with_tok("expected a newline after `assert`, found ", self.peek(),
                " — a message goes after a comma, as in `assert n > 0, \"n must be positive\"`");
            return self.err(msg);
        }
        if !self.opts.asserts {
            return Ok(None);
        }
        let fail = self.finish(StmtKind::Call { cmd: text("assert_failed"), args: vec![message] }, start);
        Ok(Some(self.finish(StmtKind::If { arms: vec![(Expr::Not(Box::new(cond)), vec![fail])], otherwise: None }, start)))
    }

    /// The source text the tokens `[from, to)` were read from, on the first
    /// one's line, trimmed.
    fn source_between(&self, from: usize, to: usize) -> (r: String)
        requires
            self.wf(),
        ensures
            r@ == self.source_text(from as int, to as int),
    {
        let n = self.toks.len();
        let first = &self.toks[if from < n { from } else { n - 1 }];
        let lastk = if to == 0 { 0 } else { to - 1 };
        let last = &self.toks[if lastk < n { lastk } else { n - 1 }];
        let li = if first.line == 0 { 0 } else { first.line - 1 };
        if li >= self.lines.len() {
            return String::new();
        }
        let line = &self.lines[li];
        let start = if first.col == 0 { 0 } else { first.col - 1 };
        let end = if last.line == first.line {
            let e = if last.end_col == 0 { 0 } else { last.end_col - 1 };
            if e < line.len() { e } else { line.len() }
        } else {
            line.len()
        };
        if start > end || end > line.len() {
            return String::new();
        }
        let part = slice_range(line.as_slice(), start, end);
        match crate::text::text_from_utf8(part.as_slice()) {
            Some(t) => trim_text(t.as_str()),
            None => String::new(),
        }
    }

    fn stmt_let(&mut self, mutable: bool) -> (r: Result<Stmt, ParseError>)
        requires
            old(self).wf(),
            old(self).cur() is Let || old(self).cur() is Var,
        ensures
            old(self).moved_to(*final(self)),
            r is Ok ==> final(self).pos > old(self).pos,
        decreases old(self).budget@, old(self).remaining(), 47nat,
    {
        let start = self.pos;
        if mutable {
            self.expect(&Tok::Var, "`let` or `var`")?;
        } else {
            self.expect(&Tok::Let, "`let` or `var`")?;
        }
        let name = self.ident("variable name")?;
        let ty = if matches!(self.peek(), Tok::Colon) {
            self.bump();
            Some(self.local_type()?)
        } else {
            if matches!(self.peek(), Tok::Newline) {
                let kw = if mutable { "var " } else { "let " };
                let mut msg = cat3("`", name.as_str(), "` has neither a type nor a value — write `");
                push_str(&mut msg, kw);
                push_str(&mut msg, name.as_str());
                push_str(&mut msg, ": TYPE` or `");
                push_str(&mut msg, kw);
                push_str(&mut msg, name.as_str());
                push_str(&mut msg, " = EXPR`");
                return self.err(msg);
            }
            None
        };
        let mut checked: Option<usize> = None;
        let value = if matches!(self.peek(), Tok::Newline) {
            Expr::ZeroInit
        } else {
            self.expect(&Tok::Eq, "`=`")?;
            if self.is_check_kw() {
                checked = Some(self.pos);
                self.bump();
            }
            self.expr()?
        };
        self.expect(&Tok::Newline, "newline after `let`")?;
        let kind = match ty {
            Some(ty) => StmtKind::Let { name, ty, value, mutable },
            None => StmtKind::LetInfer { name, value, mutable },
        };
        let stmt = self.finish(kind, start);
        if let Some(at) = checked {
            let guard = self.check_guard(at)?;
            self.pending.push(guard);
        }
        Ok(stmt)
    }

    /// Whether the cursor is where a block of this kind ends.
    fn stops(&self, stop: &Stop) -> (r: bool)
        requires
            self.wf(),
        ensures
            r == match *stop {
                Stop::End => self.cur() is End,
                Stop::ElseOrEnd => self.cur() is Else || self.cur() is End,
                Stop::Arm => self.cur() is Else || self.cur() is End || self.leads_statement("when"@),
            },
            r ==> !(self.cur() is Eof),
    {
        match stop {
            Stop::End => matches!(self.peek(), Tok::End),
            Stop::ElseOrEnd => matches!(self.peek(), Tok::Else | Tok::End),
            Stop::Arm => matches!(self.peek(), Tok::Else | Tok::End) || self.leads_stmt("when"),
        }
    }

    /// The body of a block, up to whatever `stop` says ends it (not
    /// consumed).
    fn block_until(&mut self, stop: Stop) -> (r: Result<Vec<Stmt>, ParseError>)
        requires
            old(self).wf(),
        ensures
            old(self).moved_to(*final(self)),
            r is Ok ==> !(final(self).cur() is Eof),
            forall|i: int| #[trigger] newlines_skipped(old(self).toks@, old(self).pos as int, i) && old(self).toks@[i].tok is End
                ==> (r matches Ok(b) && b@.len() == 0) && final(self).pos == i,
            forall|i: int| #[trigger] newlines_skipped(old(self).toks@, old(self).pos as int, i) && old(self).toks@[i].tok is Eof
                ==> r is Err,
        decreases old(self).budget@, old(self).remaining(), 52nat,
    {
        let mut body: Vec<Stmt> = Vec::new();
        loop
            invariant
                old(self).moved_to(*self),
                self.pos == old(self).pos ==> body@.len() == 0,
                (exists|i: int| #[trigger] newlines_skipped(old(self).toks@, old(self).pos as int, i)
                    && (old(self).toks@[i].tok is End || old(self).toks@[i].tok is Eof)) ==> self.pos == old(self).pos,
            decreases self.remaining(),
        {
            let ghost before = self.pos;
            self.skip_newlines();
            proof {
                if before == old(self).pos {
                    assert(newlines_skipped(old(self).toks@, old(self).pos as int, self.pos as int));
                    assert forall|i: int| #[trigger] newlines_skipped(old(self).toks@, old(self).pos as int, i)
                        implies i == self.pos by {
                        if i < self.pos {
                            assert(old(self).toks@[i].tok is Newline);
                        } else if i > self.pos {
                            assert(old(self).toks@[self.pos as int].tok is Newline);
                        }
                    }
                }
            }
            if self.stops(&stop) {
                return Ok(body);
            }
            if matches!(self.peek(), Tok::Eof) {
                return self.err(text("unexpected end of file (missing `end`)"));
            }
            if let Some(st) = self.statement()? {
                body.push(st);
            }
            body.append(&mut self.pending);
        }
    }

    /// One statement of any kind; `None` is a statement that compiled to
    /// nothing (an `assert` in a release build).
    fn statement(&mut self) -> (r: Result<Option<Stmt>, ParseError>)
        requires
            old(self).wf(),
        ensures
            old(self).moved_to(*final(self)),
            r is Ok ==> final(self).pos > old(self).pos,
            old(self).cur() is Break ==> (r matches Ok(Some(st)) && header_stmt(old(self).toks@, StmtKind::Break, old(self).pos as int, st)),
            old(self).cur() is Continue ==> (r matches Ok(Some(st)) && header_stmt(old(self).toks@, StmtKind::Continue, old(self).pos as int, st)),
            old(self).cur() is Return && (old(self).ahead(1) is Newline || old(self).ahead(1) is Eof) ==> (r matches Ok(Some(st))
                && header_stmt(old(self).toks@, StmtKind::Return { value: None }, old(self).pos as int, st)),
            !(old(self).cur() is Let || old(self).cur() is Var || old(self).cur() is Call || old(self).cur() is If
                || old(self).cur() is While || old(self).cur() is For || old(self).cur() is Break
                || old(self).cur() is Continue || old(self).cur() is Return || old(self).cur() is Ident) ==> r is Err,
        decreases old(self).budget@, old(self).remaining(), 50nat,
    {
        let st = if matches!(self.peek(), Tok::Let) {
            self.stmt_let(false)?
        } else if matches!(self.peek(), Tok::Var) {
            self.stmt_let(true)?
        } else if matches!(self.peek(), Tok::Call) {
            self.stmt_call()?
        } else if matches!(self.peek(), Tok::If) {
            self.stmt_if()?
        } else if matches!(self.peek(), Tok::While) {
            self.stmt_while()?
        } else if matches!(self.peek(), Tok::For) {
            self.stmt_for()?
        } else if matches!(self.peek(), Tok::Break) {
            self.stmt_jump(true)?
        } else if matches!(self.peek(), Tok::Continue) {
            self.stmt_jump(false)?
        } else if matches!(self.peek(), Tok::Return) {
            self.stmt_return()?
        } else if matches!(self.peek(), Tok::Ident(_)) {
            return self.stmt_ident();
        } else if matches!(self.peek(), Tok::Eof) {
            return self.err(text("unexpected end of file (missing `end`)"));
        } else {
            let msg = with_tok("expected a statement or `end`, found ", self.peek(), "");
            return self.err(msg);
        };
        Ok(Some(st))
    }

    /// `if COND NEWLINE ... (else if COND NEWLINE ...)* (else NEWLINE ...)? end`
    fn stmt_if(&mut self) -> (r: Result<Stmt, ParseError>)
        requires
            old(self).wf(),
            old(self).cur() is If,
        ensures
            old(self).moved_to(*final(self)),
            r matches Ok(st) ==> header_stmt(old(self).toks@, st.kind, old(self).pos as int, st) && (st.kind is If || st.kind is IfSome),
            r is Ok ==> final(self).pos > old(self).pos,
        decreases old(self).budget@, old(self).remaining(), 47nat,
    {
        let start = self.pos;
        self.expect(&Tok::If, "`if`")?;
        if self.leads_some() {
            return self.stmt_if_some(start);
        }
        let mut arms: Vec<(Expr, Vec<Stmt>)> = Vec::new();
        let mut otherwise: Option<Vec<Stmt>> = None;
        loop
            invariant
                old(self).moved_to(*self),
                old(self).pos < self.pos,
                start < self.toks@.len(),
            decreases self.remaining(),
        {
            let cond = self.expr()?;
            if self.word_is("then") {
                return self.err(text("`if COND then A else B` is the value form of `if` — write it where a value goes, as in `let n: int = if c then 1 else 2`; a block `if` has its body on the following lines"));
            }
            self.expect(&Tok::Newline, "newline after the condition")?;
            let body = self.block_until(Stop::ElseOrEnd)?;
            arms.push((cond, body));
            if matches!(self.peek(), Tok::Else) {
                self.bump();
                if matches!(self.peek(), Tok::If) {
                    self.bump();
                    continue;
                }
                self.expect(&Tok::Newline, "newline after `else`")?;
                otherwise = Some(self.block_until(Stop::End)?);
                self.expect(&Tok::End, "`end`")?;
                break;
            } else if matches!(self.peek(), Tok::End) {
                self.bump();
                break;
            } else {
                let msg = with_tok("expected `else` or `end`, found ", self.peek(), "");
                return self.err(msg);
            }
        }
        if matches!(self.peek(), Tok::Newline) {
            self.bump();
        }
        Ok(self.finish(StmtKind::If { arms, otherwise }, start))
    }

    /// `if some EXPR as NAME NEWLINE ... (else NEWLINE ...)? end`
    fn stmt_if_some(&mut self, start: usize) -> (r: Result<Stmt, ParseError>)
        requires
            old(self).wf(),
            start < old(self).pos,
        ensures
            old(self).moved_to(*final(self)),
            r matches Ok(st) ==> header_stmt(old(self).toks@, st.kind, start as int, st) && st.kind is IfSome,
        decreases old(self).budget@, old(self).remaining(), 45nat,
    {
        self.bump();
        let value = self.expr()?;
        if !self.word_is("as") {
            let msg = with_tok("expected `as` and a name for the value — `if some v as value`, found ", self.peek(), "");
            return self.err(msg);
        }
        self.bump();
        let bind = self.ident("the name to bind the value to")?;
        self.expect(&Tok::Newline, "newline after `if some ... as ...`")?;
        let body = self.block_until(Stop::ElseOrEnd)?;
        let otherwise = if matches!(self.peek(), Tok::Else) {
            self.bump();
            if matches!(self.peek(), Tok::If) {
                return self.err(text("`else if` cannot follow `if some ... as ...`: the name bound above is not in scope in a second condition. Close this `if` and open another"));
            }
            self.expect(&Tok::Newline, "newline after `else`")?;
            Some(self.block_until(Stop::End)?)
        } else {
            None
        };
        self.expect(&Tok::End, "`end`")?;
        if matches!(self.peek(), Tok::Newline) {
            self.bump();
        }
        Ok(self.finish(StmtKind::IfSome { value, bind, body, otherwise }, start))
    }

    /// `while COND NEWLINE ... end`
    fn stmt_while(&mut self) -> (r: Result<Stmt, ParseError>)
        requires
            old(self).wf(),
            old(self).cur() is While,
        ensures
            old(self).moved_to(*final(self)),
            r matches Ok(st) ==> header_stmt(old(self).toks@, st.kind, old(self).pos as int, st) && st.kind is While,
            r is Ok ==> final(self).pos > old(self).pos,
        decreases old(self).budget@, old(self).remaining(), 47nat,
    {
        let start = self.pos;
        self.expect(&Tok::While, "`while`")?;
        let cond = self.expr()?;
        self.expect(&Tok::Newline, "newline after the condition")?;
        let body = self.block_until(Stop::End)?;
        self.expect(&Tok::End, "`end`")?;
        if matches!(self.peek(), Tok::Newline) {
            self.bump();
        }
        Ok(self.finish(StmtKind::While { cond, body }, start))
    }

    /// `for each ...`, `for i in A..B`, or `for i = A to B`, each with an
    /// optional `step K`.
    fn stmt_for(&mut self) -> (r: Result<Stmt, ParseError>)
        requires
            old(self).wf(),
            old(self).cur() is For,
        ensures
            old(self).moved_to(*final(self)),
            r matches Ok(st) ==> header_stmt(old(self).toks@, st.kind, old(self).pos as int, st) && (st.kind is For || st.kind is ForEach),
            r is Ok ==> final(self).pos > old(self).pos,
        decreases old(self).budget@, old(self).remaining(), 47nat,
    {
        let head = self.pos;
        self.expect(&Tok::For, "`for`")?;
        if self.word_is("each") && matches!(self.peek_at(1), Tok::Ident(_)) {
            return self.stmt_for_each(head);
        }
        let var = self.ident("loop variable name")?;
        if self.word_is("in") {
            return self.stmt_for_range(var, head);
        }
        self.expect(&Tok::Eq, "`=` after the loop variable")?;
        let start = self.expr()?;
        if !self.word_is("to") {
            let msg = with_tok("expected `to` after the start value, found ", self.peek(), "");
            return self.err(msg);
        }
        self.bump();
        let limit = self.expr()?;
        let step = self.parse_step()?;
        self.expect(&Tok::Newline, "newline after the loop header")?;
        let body = self.block_until(Stop::End)?;
        self.expect(&Tok::End, "`end`")?;
        if matches!(self.peek(), Tok::Newline) {
            self.bump();
        }
        Ok(self.finish(StmtKind::For { var, start, limit, step, body }, head))
    }

    /// The optional `step K` closing a loop header: a non-zero whole-number
    /// literal.
    fn parse_step(&mut self) -> (r: Result<i64, ParseError>)
        requires
            old(self).wf(),
        ensures
            old(self).moved_to(*final(self)),
            r matches Ok(v) ==> v != 0,
            !old(self).at_word(0, "step"@) ==> r == Ok::<i64, ParseError>(1) && final(self).pos == old(self).pos,
        decreases old(self).budget@, old(self).remaining(), 41nat,
    {
        if !self.word_is("step") {
            return Ok(1);
        }
        self.bump();
        let line = self.line();
        match self.expr()? {
            Expr::IntLit(v) => {
                if v == 0 {
                    Err(ParseError { line, msg: text("`step 0` never advances the loop variable") })
                } else {
                    Ok(v)
                }
            },
            _ => Err(ParseError { line, msg: text("`step` needs a whole-number literal, such as `step 2` or `step -1`") }),
        }
    }

    /// `for i in A..B [step S]` — the counting loop under a second spelling.
    fn stmt_for_range(&mut self, var: String, head: usize) -> (r: Result<Stmt, ParseError>)
        requires
            old(self).wf(),
        ensures
            old(self).moved_to(*final(self)),
            r matches Ok(st) ==> header_stmt(old(self).toks@, st.kind, head as int, st) && (st.kind matches StmtKind::For { var: v, .. } && v == var),
        decreases old(self).budget@, old(self).remaining(), 45nat,
    {
        self.bump();
        let start = self.expr()?;
        self.expect(&Tok::DotDot, "`..` between the range bounds, as in `1..10`")?;
        let limit = self.expr()?;
        let step = self.parse_step()?;
        self.expect(&Tok::Newline, "newline after the loop header")?;
        let body = self.block_until(Stop::End)?;
        self.expect(&Tok::End, "`end`")?;
        if matches!(self.peek(), Tok::Newline) {
            self.bump();
        }
        Ok(self.finish(StmtKind::For { var, start, limit, step, body }, head))
    }

    /// `for each ELEM [, VALUE] [at IDX] in COLL NEWLINE ... end`
    fn stmt_for_each(&mut self, head: usize) -> (r: Result<Stmt, ParseError>)
        requires
            old(self).wf(),
        ensures
            old(self).moved_to(*final(self)),
            r matches Ok(st) ==> header_stmt(old(self).toks@, st.kind, head as int, st) && st.kind is ForEach,
        decreases old(self).budget@, old(self).remaining(), 45nat,
    {
        self.bump();
        let elem = self.ident("the element binding name after `for each`")?;
        let value = if matches!(self.peek(), Tok::Comma) {
            self.bump();
            Some(self.ident("the value binding name after `,`")?)
        } else {
            None
        };
        let index = if self.word_is("at") {
            self.bump();
            Some(self.ident("the index binding name after `at`")?)
        } else {
            None
        };
        if self.word_is("in") {
            self.bump();
        } else {
            let msg = with_tok("expected `in` before the collection in `for each`, found ", self.peek(), "");
            return self.err(msg);
        }
        let coll = self.expr()?;
        self.expect(&Tok::Newline, "newline after the `for each` header")?;
        let body = self.block_until(Stop::End)?;
        self.expect(&Tok::End, "`end`")?;
        if matches!(self.peek(), Tok::Newline) {
            self.bump();
        }
        Ok(self.finish(StmtKind::ForEach { elem, value, index, coll, body }, head))
    }

    /// `break` / `continue`.
    fn stmt_jump(&mut self, is_break: bool) -> (r: Result<Stmt, ParseError>)
        requires
            old(self).wf(),
            !(old(self).cur() is Eof),
        ensures
            old(self).moved_to(*final(self)),
            r is Ok ==> final(self).pos > old(self).pos,
            r matches Ok(st) && header_stmt(old(self).toks@, if is_break { StmtKind::Break } else { StmtKind::Continue }, old(self).pos as int, st),
            final(self).pos == old(self).pos + 1 + if old(self).ahead(1) is Newline { 1int } else { 0int },
    {
        let start = self.pos;
        self.bump();
        if matches!(self.peek(), Tok::Newline) {
            self.bump();
        }
        Ok(self.finish(if is_break { StmtKind::Break } else { StmtKind::Continue }, start))
    }

    /// `return` or `return EXPR`.
    fn stmt_return(&mut self) -> (r: Result<Stmt, ParseError>)
        requires
            old(self).wf(),
            old(self).cur() is Return,
        ensures
            old(self).moved_to(*final(self)),
            r is Ok ==> final(self).pos > old(self).pos,
            (old(self).ahead(1) is Newline || old(self).ahead(1) is Eof) ==> (r matches Ok(st)
                && header_stmt(old(self).toks@, StmtKind::Return { value: None }, old(self).pos as int, st)),
        decreases old(self).budget@, old(self).remaining(), 47nat,
    {
        let start = self.pos;
        self.expect(&Tok::Return, "`return`")?;
        let bare_if = matches!(self.peek(), Tok::If) && !self.line_has_then();
        let value = if matches!(self.peek(), Tok::Newline | Tok::Eof) || bare_if {
            None
        } else {
            Some(self.expr()?)
        };
        self.finish_simple(StmtKind::Return { value }, start)
    }

    fn stmt_call(&mut self) -> (r: Result<Stmt, ParseError>)
        requires
            old(self).wf(),
            old(self).cur() is Call,
        ensures
            old(self).moved_to(*final(self)),
            r is Ok ==> final(self).pos > old(self).pos,
        decreases old(self).budget@, old(self).remaining(), 47nat,
    {
        let start = self.pos;
        self.expect(&Tok::Call, "`call`")?;
        if self.word_is("through") {
            let (callee, args, ret, conv) = self.call_through_tail()?;
            return self.finish_simple(StmtKind::CallThrough { callee, args, ret, conv }, start);
        }
        let cmd = self.ident("command name")?;
        if matches!(self.peek(), Tok::Dot | Tok::LBracket) {
            let recv = self.postfix_with(Expr::Var(cmd), true)?;
            match recv {
                Expr::Call { cmd, args } => {
                    return self.finish_simple(StmtKind::Call { cmd, args }, start);
                },
                _ => {
                    return self.err(text("`call` runs a command or a subroutine — write `call name(...)`, or the method spelling `call value.name(...)`"));
                },
            }
        }
        self.expect(&Tok::LParen, "`(`")?;
        let args = self.arg_list()?;
        self.finish_simple(StmtKind::Call { cmd, args }, start)
    }

    /// The whole of `through <callee>(args...)[: type][convention]`, with the
    /// `call` already consumed.
    fn call_through_tail(&mut self) -> (r: Result<(Expr, Vec<Expr>, Option<Ty>, Option<CallConv>), ParseError>)
        requires
            old(self).wf(),
            old(self).cur() is Ident,
        ensures
            old(self).moved_to(*final(self)),
            r is Ok ==> final(self).pos > old(self).pos,
            final(self).hidden == old(self).hidden,
            final(self).pending == old(self).pending,
        decreases old(self).budget@, old(self).remaining(), 30nat,
    {
        self.bump();
        let callee = self.call_through_callee()?;
        self.expect(&Tok::LParen, "`(` starting the arguments of `call through`")?;
        let args = self.arg_list()?;
        let ret = if matches!(self.peek(), Tok::Colon) {
            self.bump();
            Some(self.ffi_type("`call through`", false)?)
        } else {
            None
        };
        let conv = self.call_conv_opt("`call through`")?;
        if matches!(self.peek(), Tok::LParen) {
            return self.err(text("`call through` read `(...)` as its arguments, and there is a second `(...)` after it — a callee that is itself a call goes in parentheses, as in `call through (GetProcAddress(h, \"add\"))(1, 2)`"));
        }
        Ok((callee, args, ret, conv))
    }

    /// The address half of a `call through`: `(any expression)`, or a name
    /// and the `.field` / `[i]` path from it.
    fn call_through_callee(&mut self) -> (r: Result<Expr, ParseError>)
        requires
            old(self).wf(),
        ensures
            old(self).moved_to(*final(self)),
            final(self).hidden == old(self).hidden,
            final(self).pending == old(self).pending,
            !(old(self).cur() is LParen || old(self).cur() is Ident) ==> r is Err,
            old(self).cur() is Ident && !(old(self).ahead(1) is Dot || old(self).ahead(1) is LBracket)
                ==> (r matches Ok(Expr::Var(n)) && word_tok(old(self).cur(), n@)) && final(self).pos == old(self).pos + 1,
        decreases old(self).budget@, old(self).remaining(), 29nat,
    {
        if matches!(self.peek(), Tok::LParen) {
            self.bump();
            let e = self.expr()?;
            self.expect(&Tok::RParen, "`)` closing the callee of `call through`")?;
            return Ok(e);
        }
        let name = self.ident("a `ptr` value, or `(expression)`, after `call through`")?;
        let base = if matches!(self.peek(), Tok::Dot) {
            self.bump();
            let property = self.ident("field name")?;
            Expr::GetProperty { component: name, property }
        } else {
            Expr::Var(name)
        };
        self.postfix_with(base, false)
    }

    /// A comma-separated argument list, the opening `(` already consumed;
    /// consumes the closing `)`.
    fn arg_list(&mut self) -> (r: Result<Vec<Expr>, ParseError>)
        requires
            old(self).wf(),
        ensures
            old(self).moved_to(*final(self)),
            r is Ok ==> final(self).pos > old(self).pos,
            old(self).cur() is RParen ==> (r matches Ok(a) && a@.len() == 0 && final(self).pos == old(self).pos + 1),
            !(old(self).cur() is RParen) ==> (r matches Ok(a) ==> a@.len() >= 1),
            final(self).hidden == old(self).hidden,
            final(self).pending == old(self).pending,
        decreases old(self).budget@, old(self).remaining(), 24nat,
    {
        let mut args: Vec<Expr> = Vec::new();
        if !matches!(self.peek(), Tok::RParen) {
            loop
                invariant
                    old(self).moved_to(*self),
                    self.hidden == old(self).hidden,
                    self.pending == old(self).pending,
                    !(old(self).cur() is RParen),
                ensures
                    args@.len() >= 1,
                decreases self.remaining(),
            {
                let a = self.argument()?;
                args.push(a);
                if matches!(self.peek(), Tok::Comma) {
                    self.bump();
                    if matches!(self.peek(), Tok::RParen) {
                        break;
                    }
                } else if matches!(self.peek(), Tok::RParen) {
                    break;
                } else {
                    let msg = with_tok("expected `,` or `)`, found ", self.peek(), "");
                    return self.err(msg);
                }
            }
        }
        self.expect(&Tok::RParen, "`)`")?;
        Ok(args)
    }

    /// Whether what follows the `{` at `self.pos + at` is a record body: the
    /// spread, or a named field, newlines stepped over.
    fn opens_record_body(&self, at: usize) -> (r: bool)
        requires
            self.wf(),
        ensures
            exists|i: int| #![trigger newlines_skipped(self.toks@, self.clamped(at as int), i)]
                newlines_skipped(self.toks@, self.clamped(at as int), i) && r == record_opener(self.toks@, i),
    {
        let mut i = if at < self.toks.len() - self.pos { self.pos + at } else { self.toks.len() - 1 };
        let ghost from = i as int;
        while i < self.toks.len() - 1 && matches!(self.toks[i].tok, Tok::Newline)
            invariant
                self.wf(),
                from == self.clamped(at as int),
                from <= i < self.toks@.len(),
                forall|j: int| from <= j < i ==> #[trigger] self.toks@[j].tok is Newline,
            decreases self.toks@.len() - i,
        {
            i = i + 1;
        }
        assert(newlines_skipped(self.toks@, from, i as int));
        let next = if i < self.toks.len() - 1 { i + 1 } else { self.toks.len() - 1 };
        matches!(self.toks[i].tok, Tok::DotDot)
            || (matches!(self.toks[i].tok, Tok::Ident(_)) && matches!(self.toks[next].tok, Tok::Colon))
    }

    /// `NAME{field: v, ...}` and `NAME{...base, field: v}`, from the `{`.
    fn record_braces(&mut self, name: String) -> (r: Result<Expr, ParseError>)
        requires
            old(self).wf(),
        ensures
            old(self).moved_to(*final(self)),
            r is Ok ==> final(self).pos > old(self).pos,
            final(self).hidden == old(self).hidden,
            final(self).pending == old(self).pending,
        decreases old(self).budget@, old(self).remaining(), 5nat,
    {
        self.expect(&Tok::LBrace, "`{`")?;
        self.skip_newlines();
        let mut base: Option<Expr> = None;
        if matches!(self.peek(), Tok::DotDot) {
            self.bump();
            if matches!(self.peek(), Tok::Dot) {
                self.bump();
            }
            base = Some(self.expr()?);
            if matches!(self.peek(), Tok::Comma) {
                self.bump();
            }
            self.skip_newlines();
        }
        let mut fields: Vec<(String, Expr)> = Vec::new();
        while !matches!(self.peek(), Tok::RBrace)
            invariant
                old(self).moved_to(*self),
                old(self).pos < self.pos,
                self.hidden == old(self).hidden,
                self.pending == old(self).pending,
            decreases self.remaining(),
        {
            let field = self.ident("field name")?;
            self.expect(&Tok::Colon, "`:` after a field name")?;
            let value = self.expr()?;
            if find_name(&fields, field.as_str()).is_some() {
                let mut msg = cat3("`", name.as_str(), "` gives field `");
                push_str(&mut msg, field.as_str());
                push_str(&mut msg, "` twice");
                return self.err(msg);
            }
            fields.push((field, value));
            if matches!(self.peek(), Tok::Comma) {
                self.bump();
                self.skip_newlines();
            } else if matches!(self.peek(), Tok::Newline) {
                self.skip_newlines();
            } else if matches!(self.peek(), Tok::RBrace) {
                break;
            } else {
                let mut msg = cat3("expected `,` or `}` in `", name.as_str(), "`, found ");
                push_tok_debug(&mut msg, self.peek());
                return self.err(msg);
            }
        }
        self.expect(&Tok::RBrace, "`}` after the fields")?;
        Ok(match base {
            Some(base) => Expr::RecordUpdate { name, base: Box::new(base), fields },
            None => Expr::RecordLit { name, fields },
        })
    }

    /// One argument: an expression, or `name: expression`.
    fn argument(&mut self) -> (r: Result<Expr, ParseError>)
        requires
            old(self).wf(),
        ensures
            old(self).moved_to(*final(self)),
            r is Ok ==> final(self).pos > old(self).pos,
            final(self).hidden == old(self).hidden,
            final(self).pending == old(self).pending,
        decreases old(self).budget@, old(self).remaining(), 23nat,
    {
        if matches!(self.peek(), Tok::Ident(_)) && matches!(self.peek_at(1), Tok::Colon) {
            let name = self.ident("argument name")?;
            self.bump();
            let value = self.expr()?;
            return Ok(Expr::Labeled { name, value: Box::new(value) });
        }
        self.expr()
    }

    /// Whether `then` appears before this line ends.
    fn line_has_then(&self) -> (r: bool)
        requires
            self.wf(),
        ensures
            r == exists|k: int| self.pos <= k < self.toks@.len()
                && word_tok((#[trigger] self.toks@[k]).tok, "then"@)
                && forall|j: int| self.pos <= j <= k ==> !(self.toks@[j].tok is Newline || self.toks@[j].tok is Eof),
    {
        let mut k = self.pos;
        while k < self.toks.len()
            invariant
                self.wf(),
                self.pos <= k <= self.toks@.len(),
                forall|j: int| self.pos <= j < k ==> !(self.toks@[j].tok is Newline || self.toks@[j].tok is Eof)
                    && !word_tok(self.toks@[j].tok, "then"@),
            decreases self.toks@.len() - k,
        {
            if matches!(self.toks[k].tok, Tok::Newline | Tok::Eof) {
                return false;
            }
            if is_word(&self.toks[k].tok, "then") {
                return true;
            }
            k = k + 1;
        }
        false
    }

    /// An expression, including the conditional `if C then A else B` and the
    /// fallback `E otherwise F`.
    fn expr(&mut self) -> (r: Result<Expr, ParseError>)
        requires
            old(self).wf(),
        ensures
            old(self).moved_to(*final(self)),
            r is Ok ==> final(self).pos > old(self).pos,
            final(self).hidden == old(self).hidden,
            final(self).pending == old(self).pending,
        decreases old(self).budget@, old(self).remaining(), 22nat,
    {
        if matches!(self.peek(), Tok::If) {
            return self.if_expr();
        }
        let lhs = self.or_expr()?;
        if self.word_is("otherwise") {
            self.bump();
            let fallback = self.or_expr()?;
            if self.word_is("otherwise") {
                return self.err(text("an expression can carry one `otherwise`; the failure a second one would test is the same one the first already handled"));
            }
            return Ok(Expr::Otherwise { value: Box::new(lhs), fallback: Box::new(fallback) });
        }
        Ok(lhs)
    }

    /// `if COND then A else B` as a value. The `if` is at the cursor.
    fn if_expr(&mut self) -> (r: Result<Expr, ParseError>)
        requires
            old(self).wf(),
            old(self).cur() is If,
        ensures
            old(self).moved_to(*final(self)),
            r is Ok ==> final(self).pos > old(self).pos,
            final(self).hidden == old(self).hidden,
            final(self).pending == old(self).pending,
        decreases old(self).budget@, old(self).remaining(), 21nat,
    {
        self.bump();
        let cond = self.or_expr()?;
        if !self.word_is("then") {
            let msg = with_tok("expected `then` after the condition of an `if` used as a value, found ", self.peek(), "");
            return self.err(msg);
        }
        self.bump();
        let then = self.expr()?;
        if !matches!(self.peek(), Tok::Else) {
            return self.err(text("an `if` used as a value needs an `else` — every path must produce a value"));
        }
        self.bump();
        let els = self.expr()?;
        Ok(Expr::IfElse { cond: Box::new(cond), then: Box::new(then), els: Box::new(els) })
    }

    fn or_expr(&mut self) -> (r: Result<Expr, ParseError>)
        requires
            old(self).wf(),
        ensures
            old(self).moved_to(*final(self)),
            r is Ok ==> final(self).pos > old(self).pos,
            final(self).hidden == old(self).hidden,
            final(self).pending == old(self).pending,
            (old(self).lone_operand(0) && ends_or(old(self).ahead(1)))
                ==> (r matches Ok(e) && operand_reads(old(self).cur(), e) && final(self).pos == old(self).pos + 1),
            (old(self).lone_operand(0) && old(self).ahead(1) is Or && old(self).lone_operand(2) && ends_or(old(self).ahead(3)))
                ==> (r matches Ok(Expr::Logical(LogicalOp::Or, l, rr))
                    && operand_reads(old(self).cur(), *l) && operand_reads(old(self).ahead(2), *rr)
                    && final(self).pos == old(self).pos + 3),
        decreases old(self).budget@, old(self).remaining(), 20nat,
    {
        let mut lhs = self.and_expr()?;
        let ghost alone = old(self).lone_operand(0) && ends_or(old(self).ahead(1));
        let ghost paired = old(self).lone_operand(0) && old(self).ahead(1) is Or && old(self).lone_operand(2) && ends_or(old(self).ahead(3));
        while matches!(self.peek(), Tok::Or)
            invariant
                old(self).moved_to(*self),
                old(self).pos < self.pos,
                self.hidden == old(self).hidden,
                self.pending == old(self).pending,
                alone == (old(self).lone_operand(0) && ends_or(old(self).ahead(1))),
                paired == (old(self).lone_operand(0) && old(self).ahead(1) is Or && old(self).lone_operand(2) && ends_or(old(self).ahead(3))),
                alone ==> self.pos == old(self).pos + 1 && operand_reads(old(self).cur(), lhs),
                paired ==> (self.pos == old(self).pos + 1 && operand_reads(old(self).cur(), lhs))
                    || (self.pos == old(self).pos + 3 && (lhs matches Expr::Logical(LogicalOp::Or, l, rr)
                        && operand_reads(old(self).cur(), *l) && operand_reads(old(self).ahead(2), *rr))),
            decreases self.remaining(),
        {
            let ghost at = self.pos;
            proof {
                assert(self.cur() == old(self).ahead(at - old(self).pos));
            }
            self.bump();
            proof {
                if at == old(self).pos + 1 {
                    assert(self.lone_operand(0) == old(self).lone_operand(2));
                    assert(self.ahead(1) == old(self).ahead(3));
                }
            }
            let rhs = self.and_expr()?;
            lhs = Expr::Logical(LogicalOp::Or, Box::new(lhs), Box::new(rhs));
        }
        proof {
            assert(self.cur() == old(self).ahead(self.pos - old(self).pos));
        }
        Ok(lhs)
    }

    fn and_expr(&mut self) -> (r: Result<Expr, ParseError>)
        requires
            old(self).wf(),
        ensures
            old(self).moved_to(*final(self)),
            r is Ok ==> final(self).pos > old(self).pos,
            final(self).hidden == old(self).hidden,
            final(self).pending == old(self).pending,
            (old(self).lone_operand(0) && ends_and(old(self).ahead(1)))
                ==> (r matches Ok(e) && operand_reads(old(self).cur(), e) && final(self).pos == old(self).pos + 1),
            (old(self).lone_operand(0) && old(self).ahead(1) is And && old(self).lone_operand(2) && ends_and(old(self).ahead(3)))
                ==> (r matches Ok(Expr::Logical(LogicalOp::And, l, rr))
                    && operand_reads(old(self).cur(), *l) && operand_reads(old(self).ahead(2), *rr)
                    && final(self).pos == old(self).pos + 3),
        decreases old(self).budget@, old(self).remaining(), 19nat,
    {
        let mut lhs = self.not_expr()?;
        let ghost alone = old(self).lone_operand(0) && ends_and(old(self).ahead(1));
        let ghost paired = old(self).lone_operand(0) && old(self).ahead(1) is And && old(self).lone_operand(2) && ends_and(old(self).ahead(3));
        while matches!(self.peek(), Tok::And)
            invariant
                old(self).moved_to(*self),
                old(self).pos < self.pos,
                self.hidden == old(self).hidden,
                self.pending == old(self).pending,
                alone == (old(self).lone_operand(0) && ends_and(old(self).ahead(1))),
                paired == (old(self).lone_operand(0) && old(self).ahead(1) is And && old(self).lone_operand(2) && ends_and(old(self).ahead(3))),
                alone ==> self.pos == old(self).pos + 1 && operand_reads(old(self).cur(), lhs),
                paired ==> (self.pos == old(self).pos + 1 && operand_reads(old(self).cur(), lhs))
                    || (self.pos == old(self).pos + 3 && (lhs matches Expr::Logical(LogicalOp::And, l, rr)
                        && operand_reads(old(self).cur(), *l) && operand_reads(old(self).ahead(2), *rr))),
            decreases self.remaining(),
        {
            let ghost at = self.pos;
            proof {
                assert(self.cur() == old(self).ahead(at - old(self).pos));
            }
            self.bump();
            proof {
                if at == old(self).pos + 1 {
                    assert(self.lone_operand(0) == old(self).lone_operand(2));
                    assert(self.ahead(1) == old(self).ahead(3));
                }
            }
            let rhs = self.not_expr()?;
            lhs = Expr::Logical(LogicalOp::And, Box::new(lhs), Box::new(rhs));
        }
        proof {
            assert(self.cur() == old(self).ahead(self.pos - old(self).pos));
        }
        Ok(lhs)
    }

    fn not_expr(&mut self) -> (r: Result<Expr, ParseError>)
        requires
            old(self).wf(),
        ensures
            old(self).moved_to(*final(self)),
            r is Ok ==> final(self).pos > old(self).pos,
            final(self).hidden == old(self).hidden,
            final(self).pending == old(self).pending,
            (old(self).lone_operand(0) && ends_cmp(old(self).ahead(1)))
                ==> (r matches Ok(e) && operand_reads(old(self).cur(), e) && final(self).pos == old(self).pos + 1),
            (old(self).lone_operand(0) && cmp_op_of(old(self).ahead(1)) is Some && old(self).lone_operand(2)
                && ends_cmp(old(self).ahead(3)))
                ==> (r matches Ok(Expr::Cmp(op, l, rr)) && cmp_op_of(old(self).ahead(1)) == Some(op)
                    && operand_reads(old(self).cur(), *l) && operand_reads(old(self).ahead(2), *rr)
                    && final(self).pos == old(self).pos + 3),
        decreases old(self).budget@, old(self).remaining(), 18nat,
    {
        if matches!(self.peek(), Tok::Not) {
            self.bump();
            let inner = self.not_expr()?;
            return Ok(Expr::Not(Box::new(inner)));
        }
        self.cmp_expr()
    }

    /// A comparison, a chained comparison, or a membership test.
    fn cmp_expr(&mut self) -> (r: Result<Expr, ParseError>)
        requires
            old(self).wf(),
        ensures
            old(self).moved_to(*final(self)),
            r is Ok ==> final(self).pos > old(self).pos,
            final(self).hidden == old(self).hidden,
            final(self).pending == old(self).pending,
            (old(self).lone_operand(0) && ends_cmp(old(self).ahead(1)))
                ==> (r matches Ok(e) && operand_reads(old(self).cur(), e) && final(self).pos == old(self).pos + 1),
            (old(self).lone_operand(0) && cmp_op_of(old(self).ahead(1)) is Some && old(self).lone_operand(2)
                && ends_cmp(old(self).ahead(3)))
                ==> (r matches Ok(Expr::Cmp(op, l, rr)) && cmp_op_of(old(self).ahead(1)) == Some(op)
                    && operand_reads(old(self).cur(), *l) && operand_reads(old(self).ahead(2), *rr)
                    && final(self).pos == old(self).pos + 3),
        decreases old(self).budget@, old(self).remaining(), 17nat,
    {
        proof {
            reveal_strlit("in");
            reveal_strlit("shl");
            reveal_strlit("shr");
            reveal_strlit("ushr");
            reveal_strlit("band");
            reveal_strlit("bxor");
            reveal_strlit("bor");
        }
        let lhs = self.bor_expr()?;
        proof {
            assert(self.ahead(0) == old(self).ahead(self.pos - old(self).pos));
            assert(self.ahead(1) == old(self).ahead(self.pos - old(self).pos + 1));
        }
        if let Some(negated) = self.membership_op() {
            let haystack = self.bor_expr()?;
            return Ok(Expr::In { needle: Box::new(lhs), haystack: Box::new(haystack), negated });
        }
        let op = match self.cmp_op() {
            Some(op) => op,
            None => return Ok(lhs),
        };
        proof {
            if self.pos == old(self).pos + 2 {
                assert(self.lone_operand(0) == old(self).lone_operand(2));
                assert(self.ahead(1) == old(self).ahead(3));
            }
        }
        let mid = self.bor_expr()?;
        proof {
            assert(self.ahead(0) == old(self).ahead(self.pos - old(self).pos));
        }
        if let Some(op2) = self.cmp_op() {
            let hi = self.bor_expr()?;
            if self.cmp_op_peek().is_some() {
                return self.err(text("only two comparisons can be chained (as in `1 <= x <= 12`); write the rest with `and`"));
            }
            return Ok(Expr::Chain { lo: Box::new(lhs), lo_op: op, mid: Box::new(mid), hi_op: op2, hi: Box::new(hi) });
        }
        Ok(Expr::Cmp(op, Box::new(lhs), Box::new(mid)))
    }

    /// The comparison operator at the cursor, without consuming it.
    fn cmp_op_peek(&self) -> (r: Option<CmpOp>)
        requires
            self.wf(),
        ensures
            r == self.cmp_at(),
            r is Some ==> !(self.cur() is Eof),
    {
        match self.peek() {
            Tok::Eq => Some(CmpOp::Eq),
            Tok::Ne => Some(CmpOp::Ne),
            Tok::Lt => Some(CmpOp::Lt),
            Tok::Le => Some(CmpOp::Le),
            Tok::Gt => Some(CmpOp::Gt),
            Tok::Ge => Some(CmpOp::Ge),
            _ => None,
        }
    }

    /// The comparison operator at the cursor, consuming it if present.
    fn cmp_op(&mut self) -> (r: Option<CmpOp>)
        requires
            old(self).wf(),
        ensures
            r == old(self).cmp_at(),
            final(self).pos == old(self).pos + (if r is Some { 1int } else { 0int }),
            old(self).moved_to(*final(self)),
            final(self).hidden == old(self).hidden,
            final(self).pending == old(self).pending,
    {
        let op = self.cmp_op_peek();
        if op.is_some() {
            self.bump();
        }
        op
    }

    /// `in` / `not in` in operator position.
    fn membership_op(&mut self) -> (r: Option<bool>)
        requires
            old(self).wf(),
        ensures
            r == (if old(self).at_word(0, "in"@) { Some(false) }
                else if old(self).cur() is Not && old(self).at_word(1, "in"@) { Some(true) }
                else { None::<bool> }),
            final(self).pos == old(self).pos + (match r { Some(false) => 1int, Some(true) => 2int, None => 0int }),
            old(self).moved_to(*final(self)),
            final(self).hidden == old(self).hidden,
            final(self).pending == old(self).pending,
    {
        if self.word_is("in") {
            self.bump();
            return Some(false);
        }
        if matches!(self.peek(), Tok::Not) && is_word(self.peek_at(1), "in") {
            self.bump();
            self.bump();
            return Some(true);
        }
        None
    }

    /// `bor` — the loosest bitwise level, looser than a comparison's operands.
    fn bor_expr(&mut self) -> (r: Result<Expr, ParseError>)
        requires
            old(self).wf(),
        ensures
            old(self).moved_to(*final(self)),
            r is Ok ==> final(self).pos > old(self).pos,
            final(self).hidden == old(self).hidden,
            final(self).pending == old(self).pending,
            (old(self).lone_operand(0) && ends_bor(old(self).ahead(1)))
                ==> (r matches Ok(e) && operand_reads(old(self).cur(), e) && final(self).pos == old(self).pos + 1),
            (old(self).lone_operand(0) && word_tok(old(self).ahead(1), "bor"@) && old(self).lone_operand(2) && ends_bor(old(self).ahead(3)))
                ==> (r matches Ok(Expr::Bit(op, l, rr)) && word_tok(old(self).ahead(1), bit_word(op))
                    && operand_reads(old(self).cur(), *l) && operand_reads(old(self).ahead(2), *rr)
                    && final(self).pos == old(self).pos + 3),
        decreases old(self).budget@, old(self).remaining(), 16nat,
    {
        proof {
            reveal_strlit("bor");
            reveal_strlit("shl");
            reveal_strlit("shr");
            reveal_strlit("ushr");
            reveal_strlit("band");
            reveal_strlit("bxor");
        }
        let mut lhs = self.bxor_expr()?;
        let ghost alone = old(self).lone_operand(0) && ends_bor(old(self).ahead(1));
        let ghost paired = old(self).lone_operand(0) && word_tok(old(self).ahead(1), "bor"@) && old(self).lone_operand(2) && ends_bor(old(self).ahead(3));
        while self.word_is("bor")
            invariant
                old(self).moved_to(*self),
                old(self).pos < self.pos,
                self.hidden == old(self).hidden,
                self.pending == old(self).pending,
                alone == (old(self).lone_operand(0) && ends_bor(old(self).ahead(1))),
                paired == (old(self).lone_operand(0) && word_tok(old(self).ahead(1), "bor"@) && old(self).lone_operand(2) && ends_bor(old(self).ahead(3))),
                alone ==> self.pos == old(self).pos + 1 && operand_reads(old(self).cur(), lhs),
                paired ==> (self.pos == old(self).pos + 1 && operand_reads(old(self).cur(), lhs))
                    || (self.pos == old(self).pos + 3 && (lhs matches Expr::Bit(op, l, rr) && word_tok(old(self).ahead(1), bit_word(op))
                        && operand_reads(old(self).cur(), *l) && operand_reads(old(self).ahead(2), *rr))),
            decreases self.remaining(),
        {
            let ghost at = self.pos;
            proof {
                assert(self.ahead(0) == old(self).ahead(at - old(self).pos));
            }
            self.bump();
            proof {
                if at == old(self).pos + 1 {
                    assert(self.lone_operand(0) == old(self).lone_operand(2));
                    assert(self.ahead(1) == old(self).ahead(3));
                }
            }
            let rhs = self.bxor_expr()?;
            lhs = Expr::Bit(BitOp::Or, Box::new(lhs), Box::new(rhs));
        }
        proof {
            assert(self.ahead(0) == old(self).ahead(self.pos - old(self).pos));
        }
        Ok(lhs)
    }

    fn bxor_expr(&mut self) -> (r: Result<Expr, ParseError>)
        requires
            old(self).wf(),
        ensures
            old(self).moved_to(*final(self)),
            r is Ok ==> final(self).pos > old(self).pos,
            final(self).hidden == old(self).hidden,
            final(self).pending == old(self).pending,
            (old(self).lone_operand(0) && ends_bxor(old(self).ahead(1)))
                ==> (r matches Ok(e) && operand_reads(old(self).cur(), e) && final(self).pos == old(self).pos + 1),
            (old(self).lone_operand(0) && word_tok(old(self).ahead(1), "bxor"@) && old(self).lone_operand(2) && ends_bxor(old(self).ahead(3)))
                ==> (r matches Ok(Expr::Bit(op, l, rr)) && word_tok(old(self).ahead(1), bit_word(op))
                    && operand_reads(old(self).cur(), *l) && operand_reads(old(self).ahead(2), *rr)
                    && final(self).pos == old(self).pos + 3),
        decreases old(self).budget@, old(self).remaining(), 15nat,
    {
        proof {
            reveal_strlit("bxor");
            reveal_strlit("shl");
            reveal_strlit("shr");
            reveal_strlit("ushr");
            reveal_strlit("band");
            reveal_strlit("bxor");
        }
        let mut lhs = self.band_expr()?;
        let ghost alone = old(self).lone_operand(0) && ends_bxor(old(self).ahead(1));
        let ghost paired = old(self).lone_operand(0) && word_tok(old(self).ahead(1), "bxor"@) && old(self).lone_operand(2) && ends_bxor(old(self).ahead(3));
        while self.word_is("bxor")
            invariant
                old(self).moved_to(*self),
                old(self).pos < self.pos,
                self.hidden == old(self).hidden,
                self.pending == old(self).pending,
                alone == (old(self).lone_operand(0) && ends_bxor(old(self).ahead(1))),
                paired == (old(self).lone_operand(0) && word_tok(old(self).ahead(1), "bxor"@) && old(self).lone_operand(2) && ends_bxor(old(self).ahead(3))),
                alone ==> self.pos == old(self).pos + 1 && operand_reads(old(self).cur(), lhs),
                paired ==> (self.pos == old(self).pos + 1 && operand_reads(old(self).cur(), lhs))
                    || (self.pos == old(self).pos + 3 && (lhs matches Expr::Bit(op, l, rr) && word_tok(old(self).ahead(1), bit_word(op))
                        && operand_reads(old(self).cur(), *l) && operand_reads(old(self).ahead(2), *rr))),
            decreases self.remaining(),
        {
            let ghost at = self.pos;
            proof {
                assert(self.ahead(0) == old(self).ahead(at - old(self).pos));
            }
            self.bump();
            proof {
                if at == old(self).pos + 1 {
                    assert(self.lone_operand(0) == old(self).lone_operand(2));
                    assert(self.ahead(1) == old(self).ahead(3));
                }
            }
            let rhs = self.band_expr()?;
            lhs = Expr::Bit(BitOp::Xor, Box::new(lhs), Box::new(rhs));
        }
        proof {
            assert(self.ahead(0) == old(self).ahead(self.pos - old(self).pos));
        }
        Ok(lhs)
    }

    fn band_expr(&mut self) -> (r: Result<Expr, ParseError>)
        requires
            old(self).wf(),
        ensures
            old(self).moved_to(*final(self)),
            r is Ok ==> final(self).pos > old(self).pos,
            final(self).hidden == old(self).hidden,
            final(self).pending == old(self).pending,
            (old(self).lone_operand(0) && ends_band(old(self).ahead(1)))
                ==> (r matches Ok(e) && operand_reads(old(self).cur(), e) && final(self).pos == old(self).pos + 1),
            (old(self).lone_operand(0) && word_tok(old(self).ahead(1), "band"@) && old(self).lone_operand(2) && ends_band(old(self).ahead(3)))
                ==> (r matches Ok(Expr::Bit(op, l, rr)) && word_tok(old(self).ahead(1), bit_word(op))
                    && operand_reads(old(self).cur(), *l) && operand_reads(old(self).ahead(2), *rr)
                    && final(self).pos == old(self).pos + 3),
        decreases old(self).budget@, old(self).remaining(), 14nat,
    {
        proof {
            reveal_strlit("band");
            reveal_strlit("shl");
            reveal_strlit("shr");
            reveal_strlit("ushr");
            reveal_strlit("band");
            reveal_strlit("bxor");
        }
        let mut lhs = self.shift_expr()?;
        let ghost alone = old(self).lone_operand(0) && ends_band(old(self).ahead(1));
        let ghost paired = old(self).lone_operand(0) && word_tok(old(self).ahead(1), "band"@) && old(self).lone_operand(2) && ends_band(old(self).ahead(3));
        while self.word_is("band")
            invariant
                old(self).moved_to(*self),
                old(self).pos < self.pos,
                self.hidden == old(self).hidden,
                self.pending == old(self).pending,
                alone == (old(self).lone_operand(0) && ends_band(old(self).ahead(1))),
                paired == (old(self).lone_operand(0) && word_tok(old(self).ahead(1), "band"@) && old(self).lone_operand(2) && ends_band(old(self).ahead(3))),
                alone ==> self.pos == old(self).pos + 1 && operand_reads(old(self).cur(), lhs),
                paired ==> (self.pos == old(self).pos + 1 && operand_reads(old(self).cur(), lhs))
                    || (self.pos == old(self).pos + 3 && (lhs matches Expr::Bit(op, l, rr) && word_tok(old(self).ahead(1), bit_word(op))
                        && operand_reads(old(self).cur(), *l) && operand_reads(old(self).ahead(2), *rr))),
            decreases self.remaining(),
        {
            let ghost at = self.pos;
            proof {
                assert(self.ahead(0) == old(self).ahead(at - old(self).pos));
            }
            self.bump();
            proof {
                if at == old(self).pos + 1 {
                    assert(self.lone_operand(0) == old(self).lone_operand(2));
                    assert(self.ahead(1) == old(self).ahead(3));
                }
            }
            let rhs = self.shift_expr()?;
            lhs = Expr::Bit(BitOp::And, Box::new(lhs), Box::new(rhs));
        }
        proof {
            assert(self.ahead(0) == old(self).ahead(self.pos - old(self).pos));
        }
        Ok(lhs)
    }

    /// `shl`, `shr`, `ushr`: tighter than the bitwise levels, looser than `+`.
    fn shift_expr(&mut self) -> (r: Result<Expr, ParseError>)
        requires
            old(self).wf(),
        ensures
            old(self).moved_to(*final(self)),
            r is Ok ==> final(self).pos > old(self).pos,
            final(self).hidden == old(self).hidden,
            final(self).pending == old(self).pending,
            (old(self).lone_operand(0) && ends_shift(old(self).ahead(1)))
                ==> (r matches Ok(e) && operand_reads(old(self).cur(), e) && final(self).pos == old(self).pos + 1),
            (old(self).lone_operand(0) && !ends_shift(old(self).ahead(1)) && ends_sum(old(self).ahead(1))
                && old(self).lone_operand(2) && ends_shift(old(self).ahead(3)))
                ==> (r matches Ok(Expr::Bit(op, l, rr)) && word_tok(old(self).ahead(1), bit_word(op))
                    && operand_reads(old(self).cur(), *l) && operand_reads(old(self).ahead(2), *rr)
                    && final(self).pos == old(self).pos + 3),
        decreases old(self).budget@, old(self).remaining(), 13nat,
    {
        let mut lhs = self.sum()?;
        let ghost alone = old(self).lone_operand(0) && ends_shift(old(self).ahead(1));
        let ghost paired = old(self).lone_operand(0) && !ends_shift(old(self).ahead(1)) && ends_sum(old(self).ahead(1))
            && old(self).lone_operand(2) && ends_shift(old(self).ahead(3));
        loop
            invariant
                old(self).moved_to(*self),
                old(self).pos < self.pos,
                self.hidden == old(self).hidden,
                self.pending == old(self).pending,
                alone == (old(self).lone_operand(0) && ends_shift(old(self).ahead(1))),
                paired == (old(self).lone_operand(0) && !ends_shift(old(self).ahead(1)) && ends_sum(old(self).ahead(1))
                    && old(self).lone_operand(2) && ends_shift(old(self).ahead(3))),
                alone ==> self.pos == old(self).pos + 1 && operand_reads(old(self).cur(), lhs),
                paired ==> (self.pos == old(self).pos + 1 && operand_reads(old(self).cur(), lhs))
                    || (self.pos == old(self).pos + 3 && (lhs matches Expr::Bit(op, l, rr)
                        && word_tok(old(self).ahead(1), bit_word(op)) && operand_reads(old(self).cur(), *l)
                        && operand_reads(old(self).ahead(2), *rr))),
            ensures
                old(self).moved_to(*self),
                old(self).pos < self.pos,
                self.hidden == old(self).hidden,
                self.pending == old(self).pending,
                alone ==> self.pos == old(self).pos + 1 && operand_reads(old(self).cur(), lhs),
                paired ==> self.pos == old(self).pos + 3 && (lhs matches Expr::Bit(op, l, rr)
                    && word_tok(old(self).ahead(1), bit_word(op)) && operand_reads(old(self).cur(), *l)
                    && operand_reads(old(self).ahead(2), *rr)),
            decreases self.remaining(),
        {
            let ghost at = self.pos;
            proof {
                assert(self.ahead(0) == old(self).ahead(at - old(self).pos));
                reveal_strlit("shl");
                reveal_strlit("shr");
                reveal_strlit("ushr");
            }
            let op = if self.word_is("shl") {
                BitOp::Shl
            } else if self.word_is("shr") {
                BitOp::Shr
            } else if self.word_is("ushr") {
                BitOp::Ushr
            } else {
                break;
            };
            self.bump();
            proof {
                if at == old(self).pos + 1 {
                    assert(self.lone_operand(0) == old(self).lone_operand(2));
                    assert(self.ahead(1) == old(self).ahead(3));
                }
            }
            let rhs = self.sum()?;
            lhs = Expr::Bit(op, Box::new(lhs), Box::new(rhs));
        }
        Ok(lhs)
    }

    fn sum(&mut self) -> (r: Result<Expr, ParseError>)
        requires
            old(self).wf(),
        ensures
            old(self).moved_to(*final(self)),
            r is Ok ==> final(self).pos > old(self).pos,
            (old(self).lone_operand(0) && ends_sum(old(self).ahead(1)))
                ==> (r matches Ok(e) && operand_reads(old(self).cur(), e) && final(self).pos == old(self).pos + 1),
            (old(self).lone_operand(0) && (old(self).ahead(1) is Plus || old(self).ahead(1) is Minus)
                && old(self).lone_operand(2) && bin_op_of(old(self).ahead(3)) is None)
                ==> (r matches Ok(Expr::Bin(op, l, rr)) && bin_op_of(old(self).ahead(1)) == Some(op)
                    && operand_reads(old(self).cur(), *l) && operand_reads(old(self).ahead(2), *rr)
                    && final(self).pos == old(self).pos + 3),
            final(self).hidden == old(self).hidden,
            final(self).pending == old(self).pending,
        decreases old(self).budget@, old(self).remaining(), 12nat,
    {
        let mut lhs = self.term()?;
        let ghost lone_alone = old(self).lone_operand(0) && ends_sum(old(self).ahead(1));
        let ghost lone_sum = old(self).lone_operand(0) && (old(self).ahead(1) is Plus
            || old(self).ahead(1) is Minus) && old(self).lone_operand(2) && bin_op_of(old(self).ahead(3)) is None;
        loop
            invariant
                old(self).moved_to(*self),
                old(self).pos < self.pos,
                self.hidden == old(self).hidden,
                self.pending == old(self).pending,
                lone_sum == (old(self).lone_operand(0) && (old(self).ahead(1) is Plus
                    || old(self).ahead(1) is Minus) && old(self).lone_operand(2)
                    && bin_op_of(old(self).ahead(3)) is None),
                lone_alone == (old(self).lone_operand(0) && ends_sum(old(self).ahead(1))),
                lone_alone ==> self.pos == old(self).pos + 1 && operand_reads(old(self).cur(), lhs),
                lone_sum ==> (self.pos == old(self).pos + 1 && operand_reads(old(self).cur(), lhs))
                    || (self.pos == old(self).pos + 3 && (lhs matches Expr::Bin(op, l, rr)
                        && bin_op_of(old(self).ahead(1)) == Some(op) && operand_reads(old(self).cur(), *l)
                        && operand_reads(old(self).ahead(2), *rr))),
            ensures
                old(self).moved_to(*self),
                old(self).pos < self.pos,
                self.hidden == old(self).hidden,
                self.pending == old(self).pending,
                lone_alone ==> self.pos == old(self).pos + 1 && operand_reads(old(self).cur(), lhs),
                lone_sum ==> self.pos == old(self).pos + 3 && (lhs matches Expr::Bin(op, l, rr)
                    && bin_op_of(old(self).ahead(1)) == Some(op) && operand_reads(old(self).cur(), *l)
                    && operand_reads(old(self).ahead(2), *rr)),
            decreases self.remaining(),
        {
            let ghost at = self.pos;
            proof {
                assert(self.cur() == old(self).ahead(at - old(self).pos));
            }
            let op = if matches!(self.peek(), Tok::Plus) {
                BinOp::Add
            } else if matches!(self.peek(), Tok::Minus) {
                BinOp::Sub
            } else {
                break;
            };
            self.bump();
            proof {
                if at == old(self).pos + 1 {
                    assert(self.pos == old(self).pos + 2);
                    assert(self.lone_operand(0) == old(self).lone_operand(2));
                    assert(self.ahead(1) == old(self).ahead(3));
                }
            }
            let rhs = self.term()?;
            lhs = Expr::Bin(op, Box::new(lhs), Box::new(rhs));
        }
        Ok(lhs)
    }

    fn term(&mut self) -> (r: Result<Expr, ParseError>)
        requires
            old(self).wf(),
        ensures
            old(self).moved_to(*final(self)),
            r is Ok ==> final(self).pos > old(self).pos,
            (old(self).lone_operand(0) && !(old(self).ahead(1) is Star || old(self).ahead(1) is Slash
                || old(self).ahead(1) is Percent))
                ==> (r matches Ok(e) && operand_reads(old(self).cur(), e) && final(self).pos == old(self).pos + 1),
            (old(self).lone_operand(0) && (old(self).ahead(1) is Star || old(self).ahead(1) is Slash
                || old(self).ahead(1) is Percent) && old(self).lone_operand(2)
                && !(old(self).ahead(3) is Star || old(self).ahead(3) is Slash || old(self).ahead(3) is Percent))
                ==> (r matches Ok(Expr::Bin(op, l, rr)) && bin_op_of(old(self).ahead(1)) == Some(op)
                    && operand_reads(old(self).cur(), *l) && operand_reads(old(self).ahead(2), *rr)
                    && final(self).pos == old(self).pos + 3),
            final(self).hidden == old(self).hidden,
            final(self).pending == old(self).pending,
        decreases old(self).budget@, old(self).remaining(), 11nat,
    {
        let mut lhs = self.factor()?;
        let ghost lone_then_other = old(self).lone_operand(0) && !(old(self).ahead(1) is Star
            || old(self).ahead(1) is Slash || old(self).ahead(1) is Percent);
        let ghost lone_op_lone = old(self).lone_operand(0) && (old(self).ahead(1) is Star
            || old(self).ahead(1) is Slash || old(self).ahead(1) is Percent) && old(self).lone_operand(2)
            && !(old(self).ahead(3) is Star || old(self).ahead(3) is Slash || old(self).ahead(3) is Percent);
        loop
            invariant
                old(self).moved_to(*self),
                old(self).pos < self.pos,
                self.hidden == old(self).hidden,
                self.pending == old(self).pending,
                lone_then_other == (old(self).lone_operand(0) && !(old(self).ahead(1) is Star
                    || old(self).ahead(1) is Slash || old(self).ahead(1) is Percent)),
                lone_op_lone == (old(self).lone_operand(0) && (old(self).ahead(1) is Star
                    || old(self).ahead(1) is Slash || old(self).ahead(1) is Percent) && old(self).lone_operand(2)
                    && !(old(self).ahead(3) is Star || old(self).ahead(3) is Slash || old(self).ahead(3) is Percent)),
                lone_then_other ==> self.pos == old(self).pos + 1 && operand_reads(old(self).cur(), lhs),
                lone_op_lone ==> (self.pos == old(self).pos + 1 && operand_reads(old(self).cur(), lhs))
                    || (self.pos == old(self).pos + 3 && (lhs matches Expr::Bin(op, l, rr)
                        && bin_op_of(old(self).ahead(1)) == Some(op) && operand_reads(old(self).cur(), *l)
                        && operand_reads(old(self).ahead(2), *rr))),
            ensures
                old(self).moved_to(*self),
                old(self).pos < self.pos,
                self.hidden == old(self).hidden,
                self.pending == old(self).pending,
                lone_then_other ==> self.pos == old(self).pos + 1 && operand_reads(old(self).cur(), lhs),
                lone_op_lone ==> self.pos == old(self).pos + 3 && (lhs matches Expr::Bin(op, l, rr)
                    && bin_op_of(old(self).ahead(1)) == Some(op) && operand_reads(old(self).cur(), *l)
                    && operand_reads(old(self).ahead(2), *rr)),
            decreases self.remaining(),
        {
            let ghost at = self.pos;
            proof {
                assert(self.cur() == old(self).ahead(at - old(self).pos));
            }
            let op = if matches!(self.peek(), Tok::Star) {
                BinOp::Mul
            } else if matches!(self.peek(), Tok::Slash) {
                BinOp::Div
            } else if matches!(self.peek(), Tok::Percent) {
                BinOp::Rem
            } else {
                break;
            };
            self.bump();
            proof {
                if at == old(self).pos + 1 {
                    assert(self.pos == old(self).pos + 2);
                    assert(self.lone_operand(0) == old(self).lone_operand(2));
                }
            }
            let rhs = self.factor()?;
            lhs = Expr::Bin(op, Box::new(lhs), Box::new(rhs));
        }
        Ok(lhs)
    }

    /// A factor, optionally negated; a negated literal is folded into the
    /// literal itself.
    fn factor(&mut self) -> (r: Result<Expr, ParseError>)
        requires
            old(self).wf(),
        ensures
            old(self).moved_to(*final(self)),
            r is Ok ==> final(self).pos > old(self).pos,
            old(self).lone_operand(0) ==> (r matches Ok(e) && operand_reads(old(self).cur(), e)
                && final(self).pos == old(self).pos + 1),
            final(self).hidden == old(self).hidden,
            final(self).pending == old(self).pending,
        decreases old(self).budget@, old(self).remaining(), 10nat,
    {
        if matches!(self.peek(), Tok::Minus) {
            self.bump();
            let inner = self.factor()?;
            return match inner {
                Expr::IntLit(v) => match negated(v) {
                    Some(n) => Ok(Expr::IntLit(n)),
                    None => self.err(text("integer literal out of range")),
                },
                Expr::BitsLit(v) => match negated(bits_value(v)) {
                    Some(n) => Ok(Expr::IntLit(n)),
                    None => self.err(text("integer literal out of range")),
                },
                Expr::DoubleLit(v) => Ok(Expr::DoubleLit(negate_decimal(v.as_str()))),
                other => Ok(Expr::Neg(Box::new(other))),
            };
        }
        if matches!(self.peek(), Tok::BNot) {
            self.bump();
            let inner = self.factor()?;
            return Ok(Expr::BitNot(Box::new(inner)));
        }
        let primary = self.primary()?;
        self.postfix_with(primary, true)
    }

    /// `[` … `]`, `.field` and `.name(args)` after a value, repeatedly;
    /// `methods` says whether `.name(` may be read as a method call.
    fn postfix_with(&mut self, base: Expr, methods: bool) -> (r: Result<Expr, ParseError>)
        requires
            old(self).wf(),
        ensures
            old(self).moved_to(*final(self)),
            final(self).hidden == old(self).hidden,
            final(self).pending == old(self).pending,
            !(old(self).cur() is Dot || old(self).cur() is LBracket)
                ==> r == Ok::<Expr, ParseError>(base) && final(self).pos == old(self).pos,
            old(self).cur() is Dot && !(old(self).ahead(1) is Ident) ==> r is Err,
        decreases old(self).budget@, old(self).remaining(), 8nat,
    {
        let mut e = base;
        loop
            invariant
                old(self).moved_to(*self),
                self.hidden == old(self).hidden,
                self.pending == old(self).pending,
                self.pos == old(self).pos ==> e == base,
                !(old(self).cur() is Dot || old(self).cur() is LBracket) ==> self.pos == old(self).pos,
                old(self).cur() is Dot && !(old(self).ahead(1) is Ident) ==> self.pos == old(self).pos,
            decreases self.remaining(),
        {
            if matches!(self.peek(), Tok::LBracket) {
                self.bump();
                if matches!(self.peek(), Tok::DotDot) {
                    self.bump();
                    let to = if matches!(self.peek(), Tok::RBracket) { None } else { Some(self.expr()?) };
                    self.expect(&Tok::RBracket, "`]` after the slice")?;
                    e = Expr::Slice {
                        base: Box::new(e),
                        from: None,
                        to: match to { Some(t) => Some(Box::new(t)), None => None },
                    };
                    continue;
                }
                let first = self.expr()?;
                if matches!(self.peek(), Tok::DotDot) {
                    self.bump();
                    let to = if matches!(self.peek(), Tok::RBracket) { None } else { Some(self.expr()?) };
                    self.expect(&Tok::RBracket, "`]` after the slice")?;
                    e = Expr::Slice {
                        base: Box::new(e),
                        from: Some(Box::new(first)),
                        to: match to { Some(t) => Some(Box::new(t)), None => None },
                    };
                    continue;
                }
                self.expect(&Tok::RBracket, "`]` after the index")?;
                e = Expr::Index { base: Box::new(e), index: Box::new(first) };
            } else if matches!(self.peek(), Tok::Dot) {
                self.bump();
                let name = self.ident("field name")?;
                if methods && matches!(self.peek(), Tok::LParen) {
                    self.bump();
                    let mut args = self.arg_list()?;
                    args.insert(0, e);
                    e = Expr::Call { cmd: name, args };
                    continue;
                }
                e = Expr::Field { base: Box::new(e), name };
            } else {
                return Ok(e);
            }
        }
    }

    /// The tail of `[EXPR for each ELEM [, VALUE] [at IDX] in COLL [where COND]]`.
    fn comprehension(&mut self, body: Expr) -> (r: Result<Expr, ParseError>)
        requires
            old(self).wf(),
        ensures
            old(self).moved_to(*final(self)),
            r matches Ok(e) ==> e is Comprehension,
            r is Ok ==> final(self).pos > old(self).pos,
            final(self).hidden == old(self).hidden,
            final(self).pending == old(self).pending,
        decreases old(self).budget@, old(self).remaining(), 7nat,
    {
        self.expect(&Tok::For, "`for`")?;
        if !self.word_is("each") {
            let msg = with_tok("expected `each` after `for` in a list — `[e for each x in xs]`, found ", self.peek(), "");
            return self.err(msg);
        }
        self.bump();
        let elem = self.ident("the element binding name after `for each`")?;
        let value = if matches!(self.peek(), Tok::Comma) {
            self.bump();
            Some(self.ident("the value binding name after `,`")?)
        } else {
            None
        };
        let index = if self.word_is("at") {
            self.bump();
            Some(self.ident("the index binding name after `at`")?)
        } else {
            None
        };
        if !self.word_is("in") {
            let msg = with_tok("expected `in` before the collection, found ", self.peek(), "");
            return self.err(msg);
        }
        self.bump();
        let coll = self.expr()?;
        let cond = if self.word_is("where") {
            self.bump();
            Some(Box::new(self.expr()?))
        } else {
            None
        };
        self.expect(&Tok::RBracket, "`]` closing the list")?;
        Ok(Expr::Comprehension { body: Box::new(body), elem, value, index, coll: Box::new(coll), cond, holds: None })
    }

    /// Whether an `if` opens the optional-unwrapping form: `some` and a name.
    fn leads_some(&self) -> (r: bool)
        requires
            self.wf(),
        ensures
            r == self.leads_soft("some"@),
    {
        if !self.word_is("some") {
            return false;
        }
        match self.peek_at(1) {
            Tok::Ident(w) => !is_infix_word(w.as_str()),
            _ => false,
        }
    }

    fn primary(&mut self) -> (r: Result<Expr, ParseError>)
        requires
            old(self).wf(),
        ensures
            old(self).moved_to(*final(self)),
            r is Ok ==> final(self).pos > old(self).pos,
            is_leaf(old(self).cur()) ==> (r matches Ok(e) && leaf_reads(old(self).cur(), e)
                && final(self).pos == old(self).pos + 1),
            (old(self).cur() matches Tok::Str(x) && no_braces(encode_utf8(x@)))
                ==> (r matches Ok(Expr::TextLit(y)) && y@ == old(self).cur()->Str_0@ && final(self).pos == old(self).pos + 1),
            (old(self).cur() matches Tok::Ident(x) && !(old(self).ahead(1) is LParen || old(self).ahead(1) is LBrace
                || old(self).ahead(1) is Dot) && !((x@ == "address"@ || x@ == "size"@) && old(self).at_word(1, "of"@)))
                ==> (r matches Ok(Expr::Var(y)) && y@ == old(self).cur()->Ident_0@ && final(self).pos == old(self).pos + 1),
            (old(self).cur() is Ident && old(self).ahead(1) is LParen && old(self).ahead(2) is RParen)
                ==> (r matches Ok(Expr::Call { cmd, args }) && cmd@ == old(self).cur()->Ident_0@ && args@.len() == 0
                    && final(self).pos == old(self).pos + 3),
            (old(self).cur() is Ident && old(self).ahead(1) is LParen && !(old(self).ahead(2) is RParen)
                && !(old(self).ahead(2) is Ident && old(self).ahead(3) is Colon))
                ==> (r matches Ok(e) ==> (e matches Expr::Call { cmd, args } && cmd@ == old(self).cur()->Ident_0@
                    && args@.len() >= 1)),
            (old(self).cur() is LBracket && old(self).ahead(1) is RBracket)
                ==> (r matches Ok(Expr::ArrayLit(items)) && items@.len() == 0 && final(self).pos == old(self).pos + 2),
            (old(self).cur() is LBracket && !(old(self).ahead(1) is RBracket))
                ==> (r matches Ok(Expr::ArrayLit(items)) ==> items@.len() >= 1),
            !begins_primary(old(self).cur()) ==> r is Err,
            final(self).hidden == old(self).hidden,
            final(self).pending == old(self).pending,
        decreases old(self).budget@, old(self).remaining(), 7nat,
    {
        if matches!(self.peek(), Tok::LBracket) {
            self.bump();
            let mut items: Vec<Expr> = Vec::new();
            if !matches!(self.peek(), Tok::RBracket) {
                loop
                    invariant
                        old(self).moved_to(*self),
                        old(self).pos < self.pos,
                        self.hidden == old(self).hidden,
                        self.pending == old(self).pending,
                        old(self).cur() is LBracket,
                        !(old(self).ahead(1) is RBracket),
                    ensures
                        items@.len() >= 1,
                    decreases self.remaining(),
                {
                    let item = self.expr()?;
                    if items.len() == 0 && matches!(self.peek(), Tok::For) {
                        return self.comprehension(item);
                    }
                    items.push(item);
                    if matches!(self.peek(), Tok::Comma) {
                        self.bump();
                        if matches!(self.peek(), Tok::RBracket) {
                            break;
                        }
                    } else if matches!(self.peek(), Tok::RBracket) {
                        break;
                    } else {
                        let msg = with_tok("expected `,` or `]` in a list, found ", self.peek(), "");
                        return self.err(msg);
                    }
                }
            }
            self.expect(&Tok::RBracket, "`]` closing the list")?;
            return Ok(Expr::ArrayLit(items));
        }
        if matches!(self.peek(), Tok::LBrace) {
            self.bump();
            let mut pairs: Vec<(Expr, Expr)> = Vec::new();
            self.skip_newlines();
            if !matches!(self.peek(), Tok::RBrace) {
                loop
                    invariant
                        old(self).moved_to(*self),
                        old(self).pos < self.pos,
                        old(self).cur() is LBrace,
                        self.hidden == old(self).hidden,
                        self.pending == old(self).pending,
                    decreases self.remaining(),
                {
                    self.skip_newlines();
                    let key = self.expr()?;
                    self.expect(&Tok::Colon, "`:` between a key and its value")?;
                    let value = self.expr()?;
                    pairs.push((key, value));
                    self.skip_newlines();
                    if matches!(self.peek(), Tok::Comma) {
                        self.bump();
                        self.skip_newlines();
                        if matches!(self.peek(), Tok::RBrace) {
                            break;
                        }
                    } else if matches!(self.peek(), Tok::RBrace) {
                        break;
                    } else {
                        let msg = with_tok("expected `,` or `}` in a dictionary, found ", self.peek(), "");
                        return self.err(msg);
                    }
                }
            }
            self.expect(&Tok::RBrace, "`}` closing the dictionary")?;
            return Ok(Expr::DictLit(pairs));
        }
        if matches!(self.peek(), Tok::Call) {
            self.bump();
            if !self.word_is("through") {
                return self.err(text("`call` inside an expression is only `call through <ptr>(...)`; a command or subroutine is called by name, without `call`, when its result is wanted"));
            }
            let (callee, args, ret, conv) = self.call_through_tail()?;
            return Ok(Expr::CallThrough { callee: Box::new(callee), args, ret, conv });
        }
        let tok_line = self.line();
        let t = self.bump();
        match t {
            Tok::True => Ok(Expr::BoolLit(true)),
            Tok::False => Ok(Expr::BoolLit(false)),
            Tok::Int(v) => Ok(Expr::IntLit(v)),
            Tok::Bits(v) => Ok(Expr::BitsLit(v)),
            Tok::Float(v) => Ok(Expr::DoubleLit(v)),
            Tok::Str(s) => {
                let enums = enums_dup(&self.enums);
                interpolate(&s, tok_line, &enums)
            },
            Tok::RawStr(s) => Ok(Expr::TextLit(s)),
            Tok::Ident(name) => self.primary_name(name),
            Tok::LParen => {
                let e = self.expr()?;
                self.expect(&Tok::RParen, "`)`")?;
                Ok(e)
            },
            other => {
                let msg = with_tok("expected expression, found ", &other, "");
                self.err(msg)
            },
        }
    }

    /// What a name read as a primary begins: `address of`, `size of`, a
    /// record literal, a call, an enum member, a property read or method call,
    /// or a plain variable. The name has been consumed.
    fn primary_name(&mut self, name: String) -> (r: Result<Expr, ParseError>)
        requires
            old(self).wf(),
            old(self).pos > 0,
        ensures
            old(self).moved_to(*final(self)),
            final(self).hidden == old(self).hidden,
            final(self).pending == old(self).pending,
            !(old(self).cur() is LParen || old(self).cur() is LBrace || old(self).cur() is Dot)
                && !((name@ == "address"@ || name@ == "size"@) && old(self).at_word(0, "of"@))
                ==> r == Ok::<Expr, ParseError>(Expr::Var(name)) && final(self).pos == old(self).pos,
            (old(self).cur() is LParen && old(self).ahead(1) is RParen)
                ==> (r matches Ok(Expr::Call { cmd, args }) && cmd@ == name@ && args@.len() == 0
                    && final(self).pos == old(self).pos + 2),
            (old(self).cur() is LParen && !(old(self).ahead(1) is RParen)
                && !(old(self).ahead(1) is Ident && old(self).ahead(2) is Colon))
                ==> (r matches Ok(e) ==> (e matches Expr::Call { cmd, args } && cmd@ == name@ && args@.len() >= 1)),
            (name@ == "size"@ && old(self).at_word(0, "of"@)) ==> ({
                let rest = old(self).at(old(self).pos + 1);
                &&& r is Ok <==> exists|t: Ty, len: int| #[trigger] rest.reads_type(t, len)
                &&& r matches Ok(e) ==> (e matches Expr::SizeOf(t)
                    && exists|len: int| #[trigger] rest.reads_type(t, len) && final(self).pos == rest.pos + len)
            }),
        decreases old(self).budget@, old(self).remaining(), 6nat,
    {
        proof {
            reveal_strlit("address");
            reveal_strlit("size");
            assert("address"@.len() != "size"@.len());
        }
        if str_eq(name.as_str(), "address") && is_word(self.peek(), "of") {
            self.bump();
            let mut path = self.ident("the name of a subroutine or c-record after `address of`")?;
            while matches!(self.peek(), Tok::Dot)
                invariant
                    name@ == "address"@ && old(self).at_word(0, "of"@),
                    name@ != "size"@,
                    old(self).moved_to(*self),
                    self.hidden == old(self).hidden,
                    self.pending == old(self).pending,
                decreases self.remaining(),
            {
                self.bump();
                let field = self.ident("a field name after `.` in `address of`")?;
                push_char(&mut path, '.');
                push_str(&mut path, field.as_str());
            }
            return Ok(Expr::AddressOf(path));
        }
        if str_eq(name.as_str(), "size") && is_word(self.peek(), "of") {
            self.bump();
            let ghost rest = old(self).at(old(self).pos + 1);
            assert(self.toks == rest.toks && self.pos == rest.pos && self.enums == rest.enums);
            assert forall|t: Ty, len: int| #![trigger self.reads_type(t, len)] #![trigger rest.reads_type(t, len)]
                self.reads_type(t, len) == rest.reads_type(t, len) by {}
            let ty = self.type_keyword()?;
            return Ok(Expr::SizeOf(ty));
        }
        if matches!(self.peek(), Tok::LParen) && matches!(self.peek_at(1), Tok::Ident(_))
            && matches!(self.peek_at(2), Tok::Colon) {
            self.bump();
            let args = self.arg_list()?;
            if all_labeled(&args) {
                let fields = into_fields(args);
                return Ok(Expr::RecordLit { name, fields });
            }
            return Ok(Expr::Call { cmd: name, args });
        }
        if matches!(self.peek(), Tok::LBrace) && self.opens_record_body(1) {
            return self.record_braces(name);
        }
        if matches!(self.peek(), Tok::LParen) {
            self.bump();
            let args = self.arg_list()?;
            Ok(Expr::Call { cmd: name, args })
        } else if matches!(self.peek(), Tok::Dot) {
            self.bump();
            let members = match enum_get(&self.enums, name.as_str()) {
                Some(ms) => Some(strings_dup(ms)),
                None => None,
            };
            if let Some(members) = members {
                let m = self.ident("an enum member name after `.`")?;
                if !contains_word(&members, m.as_str()) {
                    let mut msg = cat3("`", m.as_str(), "` is not a member of enum `");
                    push_str(&mut msg, name.as_str());
                    push_str(&mut msg, "` — it has ");
                    push_str(&mut msg, join(&members, ", ").as_str());
                    return self.err(msg);
                }
                let mut full = name;
                push_char(&mut full, '.');
                push_str(&mut full, m.as_str());
                return Ok(Expr::Var(full));
            }
            let property = self.ident("property name")?;
            if matches!(self.peek(), Tok::LParen) {
                self.bump();
                let mut args = self.arg_list()?;
                args.insert(0, Expr::Var(name));
                return Ok(Expr::Call { cmd: property, args });
            }
            Ok(Expr::GetProperty { component: name, property })
        } else {
            Ok(Expr::Var(name))
        }
    }
}

/// The position of the first pair named `name`, if any.
fn find_name<T>(v: &Vec<(String, T)>, name: &str) -> (r: Option<usize>)
    ensures
        r matches Some(i) ==> i < v@.len() && v@[i as int].0@ == name@,
        r is None ==> forall|k: int| 0 <= k < v@.len() ==> v@[k].0@ != name@,
{
    let mut i: usize = 0;
    while i < v.len()
        invariant
            i <= v@.len(),
            forall|k: int| 0 <= k < i ==> v@[k].0@ != name@,
        decreases v@.len() - i,
    {
        if str_eq(v[i].0.as_str(), name) {
            return Some(i);
        }
        i = i + 1;
    }
    None
}

/// Only the last parameters have defaults: once one has, every later one
/// has too.
pub open spec fn defaults_trail(d: Seq<Option<Expr>>) -> bool {
    forall|i: int, j: int| 0 <= i < j < d.len() && #[trigger] d[i] is Some ==> #[trigger] d[j] is Some
}

/// The position of the first parameter that has a default.
fn first_default(v: &Vec<Option<Expr>>) -> (r: Option<usize>)
    ensures
        r matches Some(i) ==> i < v@.len() && v@[i as int] is Some && forall|k: int| 0 <= k < i ==> v@[k] is None,
        r is None ==> forall|k: int| 0 <= k < v@.len() ==> v@[k] is None,
{
    let mut i: usize = 0;
    while i < v.len()
        invariant
            i <= v@.len(),
            forall|k: int| 0 <= k < i ==> v@[k] is None,
        decreases v@.len() - i,
    {
        if v[i].is_some() {
            return Some(i);
        }
        i = i + 1;
    }
    None
}

/// Whether a constant named `name` is among `cs`.
fn find_const(cs: &Vec<ConstDef>, name: &str) -> (r: bool)
    ensures
        r == exists|i: int| 0 <= i < cs@.len() && #[trigger] cs@[i].name@ == name@,
{
    let mut i: usize = 0;
    while i < cs.len()
        invariant
            i <= cs@.len(),
            forall|k: int| 0 <= k < i ==> #[trigger] cs@[k].name@ != name@,
        decreases cs@.len() - i,
    {
        if str_eq(cs[i].name.as_str(), name) {
            return true;
        }
        i = i + 1;
    }
    false
}

/// `-v`, or `None` where it does not fit in an `i64`.
fn negated(v: i64) -> (r: Option<i64>)
    ensures
        r == (if v == i64::MIN { None } else { Some((-v) as i64) }),
{
    if v == i64::MIN { None } else { Some(-v) }
}

/// The decimal spelling of the negation of the decimal `v`: a leading `-`
/// added, or taken away when it is already there.
fn negate_decimal(v: &str) -> (r: String)
    ensures
        r@ == (if v@.len() > 0 && v@[0] == '-' { v@.subrange(1, v@.len() as int) } else { seq!['-'] + v@ }),
{
    let b = v.as_bytes();
    if b.len() > 0 && b[0] == 45u8 {
        proof {
            lemma_ascii_prefix(v@, 1);
            assert(v@[0] as u32 == '-' as u32);
            vstd::utf8::char_u32_cast(v@[0], 45u32);
            vstd::utf8::char_u32_cast('-', 45u32);
            assert(v@[0] == '-');
            assert(b@.skip(1) == encode_utf8(v@.skip(1)));
            assert(b@.subrange(1, b@.len() as int) =~= b@.skip(1));
            vstd::utf8::encode_utf8_valid_utf8(v@.skip(1));
            vstd::utf8::encode_utf8_decode_utf8(v@.skip(1));
            assert(v@.skip(1) =~= v@.subrange(1, v@.len() as int));
        }
        let mut s = String::new();
        push_bytes(&mut s, b, 1, b.len());
        proof {
            assert(s@ =~= v@.subrange(1, v@.len() as int));
        }
        s
    } else {
        proof {
            reveal_strlit("-");
            assert(!(v@.len() > 0 && v@[0] == '-')) by {
                if v@.len() > 0 && v@[0] == '-' {
                    lemma_encode_utf8_append(seq![v@[0]], v@.skip(1));
                    assert(seq![v@[0]] + v@.skip(1) =~= v@);
                    assert(seq![v@[0]].drop_first() =~= Seq::<char>::empty());
                    assert(encode_utf8(seq![v@[0]]) =~= vstd::utf8::encode_scalar(v@[0] as u32) + encode_utf8(Seq::<char>::empty()));
                    assert(((45u32 & 0x7Fu32) as u8) == 45u8) by (bit_vector);
                    assert(vstd::utf8::encode_scalar(45u32) =~= seq![45u8]);
                    assert(b@[0] == 45u8);
                }
            }
            assert("-"@ =~= seq!['-']);
        }
        cat2("-", v)
    }
}

/// Whether every argument is a named one.
fn all_labeled(args: &Vec<Expr>) -> (r: bool)
    ensures
        r == forall|k: int| 0 <= k < args@.len() ==> (#[trigger] args@[k]) is Labeled,
{
    let mut i: usize = 0;
    while i < args.len()
        invariant
            i <= args@.len(),
            forall|k: int| 0 <= k < i ==> (#[trigger] args@[k]) is Labeled,
        decreases args@.len() - i,
    {
        if !matches!(args[i], Expr::Labeled { .. }) {
            return false;
        }
        i = i + 1;
    }
    true
}

/// Named arguments as record fields, in order.
/// The named arguments among `args`, as name and value, in order.
pub open spec fn labeled_fields(args: Seq<Expr>) -> Seq<(String, Expr)>
    decreases args.len(),
{
    if args.len() == 0 {
        Seq::empty()
    } else {
        let rest = labeled_fields(args.drop_last());
        match args.last() {
            Expr::Labeled { name, value } => rest.push((name, *value)),
            _ => rest,
        }
    }
}

fn into_fields(args: Vec<Expr>) -> (r: Vec<(String, Expr)>)
    ensures
        r@ == labeled_fields(args@),
{
    let ghost all = args@;
    let mut args = args;
    let mut out: Vec<(String, Expr)> = Vec::new();
    let ghost mut k: int = 0;
    proof {
        assert(args@ =~= all.subrange(0, all.len() as int));
        assert(out@ =~= labeled_fields(all.subrange(0, 0)));
    }
    while args.len() > 0
        invariant
            0 <= k <= all.len(),
            args@ == all.subrange(k, all.len() as int),
            out@ == labeled_fields(all.subrange(0, k)),
        decreases args@.len(),
    {
        let a = args.remove(0);
        proof {
            assert(a == all[k]);
            assert(all.subrange(0, k + 1).drop_last() =~= all.subrange(0, k));
            assert(all.subrange(0, k + 1).last() == all[k]);
            assert(args@ =~= all.subrange(k + 1, all.len() as int));
            k = k + 1;
        }
        match a {
            Expr::Labeled { name, value } => out.push((name, *value)),
            _ => {},
        }
    }
    proof {
        assert(all.subrange(0, k) =~= all);
    }
    out
}

fn strings_dup(v: &Vec<String>) -> (r: Vec<String>)
    ensures
        r@ == v@,
{
    let mut out: Vec<String> = Vec::new();
    let mut i: usize = 0;
    while i < v.len()
        invariant
            i <= v@.len(),
            out@ == v@.take(i as int),
        decreases v@.len() - i,
    {
        out.push(v[i].clone());
        proof {
            assert(out@ =~= v@.take(i + 1));
        }
        i = i + 1;
    }
    proof {
        assert(v@.take(i as int) =~= v@);
    }
    out
}

/// A copy of each enum entry: the same names, and the same members in order.
fn enums_dup(v: &Vec<(String, Vec<String>)>) -> (r: Vec<(String, Vec<String>)>)
    ensures
        r@.len() == v@.len(),
        forall|i: int| 0 <= i < v@.len() ==> (#[trigger] r@[i]).0 == v@[i].0 && r@[i].1@ == v@[i].1@,
{
    let mut out: Vec<(String, Vec<String>)> = Vec::new();
    let mut i: usize = 0;
    while i < v.len()
        invariant
            i <= v@.len(),
            out@.len() == i,
            forall|k: int| 0 <= k < i ==> (#[trigger] out@[k]).0 == v@[k].0 && out@[k].1@ == v@[k].1@,
        decreases v@.len() - i,
    {
        out.push((v[i].0.clone(), strings_dup(&v[i].1)));
        i = i + 1;
    }
    out
}

/// What the parser guarantees of one item: every subroutine, foreign
/// function and record is named by an identifier and names each parameter
/// or field once; a subroutine has a default slot per parameter; a record
/// has a field; a foreign function names a library.
pub open spec fn item_laws(item: Item) -> bool {
    match item {
        Item::Sub(s) => is_name(s.name@) && distinct_names(s.params@) && s.defaults@.len() == s.params@.len()
            && defaults_trail(s.defaults@),
        Item::UserType(d) => is_name(d.name@) && distinct_names(d.fields@) && d.fields@.len() > 0,
        Item::Dll(d) => is_name(d.name@) && distinct_names(d.params@) && d.library@.len() > 0 && ffi_signature(d),
        _ => true,
    }
}

/// A foreign function's signature crosses the C boundary: each parameter is
/// a C scalar or a record, and the result, if any, a C scalar.
pub open spec fn ffi_signature(d: DllDecl) -> bool {
    &&& forall|k: int| 0 <= k < d.params@.len() ==> ffi_param(#[trigger] d.params@[k].1)
    &&& d.ret matches Some(t) ==> c_representable(t)
}

/// Past any leading line breaks, the tokens `t` open with `module`, the
/// name `name` and a line break.
pub open spec fn module_header(t: Seq<Spanned>, name: Seq<char>) -> bool {
    forall|i: int| #[trigger] newlines_skipped(t, 0, i) ==> t[i].tok is Module
        && i + 2 < t.len() && word_tok(t[i + 1].tok, name) && t[i + 2].tok is Newline
}

/// What the parser guarantees of a whole module.
pub open spec fn module_laws(m: Module) -> bool {
    &&& is_name(m.name@)
    &&& forall|k: int| 0 <= k < m.items@.len() ==> item_laws(#[trigger] m.items@[k])
}

/// Parse one interpolation hole's text as a full expression; every token
/// must belong to it.
fn parse_hole(hole: &Vec<u8>, line: usize, enums: &Vec<(String, Vec<String>)>) -> (r: Result<Expr, ParseError>)
    requires
        hole@.len() < usize::MAX,
    decreases hole@.len() + 1, 0nat, 0nat,
{
    let mut shown_raw = String::new();
    push_bytes(&mut shown_raw, hole.as_slice(), 0, hole.len());
    let shown = trim_text(shown_raw.as_str());
    let toks = match lex_bytes(hole.as_slice()) {
        Ok(t) => t,
        Err(e) => {
            let mut msg = cat3("in the interpolation hole `{", shown.as_str(), "}`: ");
            push_str(&mut msg, e.msg.as_str());
            return Err(ParseError { line, msg });
        },
    };
    let mut sub = Parser {
        toks,
        pos: 0,
        pending: Vec::new(),
        cur_ret: None,
        in_sub: false,
        enums: enums_dup(enums),
        hidden: 0,
        opts: ParseOptions { asserts: true },
        lines: Vec::new(),
        budget: Ghost(hole@.len()),
    };
    let e = match sub.expr() {
        Ok(e) => e,
        Err(err) => {
            let mut msg = cat3("in the interpolation hole `{", shown.as_str(), "}`: ");
            push_str(&mut msg, err.msg.as_str());
            return Err(ParseError { line, msg });
        },
    };
    if matches!(sub.peek(), Tok::Eof) {
        Ok(e)
    } else if matches!(sub.peek(), Tok::Colon) {
        Err(ParseError { line, msg: cat3("format specs like `{", shown.as_str(), ":...}` are not supported yet") })
    } else {
        let mut msg = with_tok("unexpected ", sub.peek(), " after the expression in the interpolation hole `{");
        push_str(&mut msg, shown.as_str());
        push_str(&mut msg, "}`");
        Err(ParseError { line, msg })
    }
}

/// Split a decoded literal into its interpolation pieces: literal chunks as
/// `TextLit`, holes as `ToText`. Always yields at least one piece.
fn split_interp(s: &String, line: usize, enums: &Vec<(String, Vec<String>)>) -> (r: Result<Vec<Expr>, ParseError>)
    requires
        encode_utf8(s@).len() < usize::MAX,
    ensures
        r matches Ok(p) ==> p@.len() > 0,
        no_braces(encode_utf8(s@)) ==> (r matches Ok(p) && p@.len() == 1 && match p@[0] {
            Expr::TextLit(t) => t@ == s@,
            _ => false,
        }),
    decreases encode_utf8(s@).len() + 1, 0nat, 1nat,
{
    let b = s.as_str().as_bytes();
    let n = b.len();
    let mut pieces: Vec<Expr> = Vec::new();
    let mut lit = String::new();
    let mut i: usize = 0;
    while i < n
        invariant
            i <= n == b@.len() == encode_utf8(s@).len(),
            b@ == encode_utf8(s@),
            no_braces(b@) ==> pieces@.len() == 0 && (i == 0 || i == n) && lit@ == (if i == 0 { Seq::<char>::empty() } else { s@ }),
        decreases n - i,
    {
        if b[i] == 123u8 && i + 1 < n && b[i + 1] == 123u8 {
            push_char(&mut lit, '{');
            i = i + 2;
        } else if b[i] == 125u8 && i + 1 < n && b[i + 1] == 125u8 {
            push_char(&mut lit, '}');
            i = i + 2;
        } else if b[i] == 125u8 {
            return Err(ParseError { line, msg: text("a lone `}` in text — write `}}` for a literal brace") });
        } else if b[i] == 123u8 {
            if lit.as_str().len() > 0 {
                pieces.push(Expr::TextLit(lit));
                lit = String::new();
            }
            let start = i + 1;
            let mut depth: usize = 1;
            let mut j = start;
            let mut closed = false;
            while j < n && !closed
                invariant
                    1 <= start <= j <= n == b@.len(),
                    depth >= 1,
                    depth <= j - start + 1,
                    closed ==> j < n,
                decreases n - j + (if closed { 0int } else { 1int }),
            {
                if b[j] == 123u8 {
                    depth = depth + 1;
                    j = j + 1;
                } else if b[j] == 125u8 && depth == 1 {
                    closed = true;
                } else {
                    if b[j] == 125u8 {
                        depth = depth - 1;
                    }
                    j = j + 1;
                }
            }
            if !closed {
                return Err(ParseError { line, msg: text("an interpolation hole is missing its closing `}`") });
            }
            let hole = slice_range(b, start, j);
            let mut hole_text = String::new();
            push_bytes(&mut hole_text, b, start, j);
            let trimmed = trim_text(hole_text.as_str());
            if trimmed.as_str().len() == 0 {
                return Err(ParseError { line, msg: text("an empty interpolation hole `{}` — put an expression between the braces") });
            }
            let expr = parse_hole(&hole, line, enums)?;
            pieces.push(Expr::ToText { value: Box::new(expr), hole: trimmed });
            i = j + 1;
        } else {
            let start = i;
            while i < n && b[i] != 123u8 && b[i] != 125u8
                invariant
                    start <= i <= n == b@.len(),
                decreases n - i,
            {
                i = i + 1;
            }
            proof {
                if no_braces(b@) {
                    assert(start == 0 && i == n);
                    assert(b@.subrange(0, n as int) =~= b@);
                    vstd::utf8::encode_utf8_valid_utf8(s@);
                    vstd::utf8::encode_utf8_decode_utf8(s@);
                }
            }
            push_bytes(&mut lit, b, start, i);
            proof {
                if no_braces(b@) {
                    assert(lit@ =~= s@);
                }
            }
        }
    }
    if lit.as_str().len() > 0 || pieces.len() == 0 {
        pieces.push(Expr::TextLit(lit));
    }
    Ok(pieces)
}

/// Desugar a decoded text literal: an all-literal string stays one
/// `TextLit`; a string with holes becomes the left-folded `concat` chain.
fn interpolate(s: &String, line: usize, enums: &Vec<(String, Vec<String>)>) -> (r: Result<Expr, ParseError>)
    requires
        encode_utf8(s@).len() < usize::MAX,
    ensures
        no_braces(encode_utf8(s@)) ==> (r matches Ok(Expr::TextLit(t)) && t@ == s@),
    decreases encode_utf8(s@).len() + 1, 0nat, 2nat,
{
    let mut pieces = split_interp(s, line, enums)?;
    let mut acc = pieces.remove(0);
    while pieces.len() > 0
        invariant
            no_braces(encode_utf8(s@)) ==> pieces@.len() == 0 && match acc {
                Expr::TextLit(t) => t@ == s@,
                _ => false,
            },
        decreases pieces@.len(),
    {
        let p = pieces.remove(0);
        acc = Expr::Call { cmd: text("concat"), args: vec![acc, p] };
    }
    Ok(acc)
}

/// Parse a whole module with the default options.
pub fn parse(src: &str) -> (r: Result<Module, ParseError>)
    requires
        src.spec_bytes().len() < usize::MAX,
    ensures
        r matches Ok(m) ==> module_laws(m),
        r matches Ok(m) ==> exists|t: Seq<Spanned>| #![trigger read_from(src.spec_bytes(), t)]
            read_from(src.spec_bytes(), t) && well_lexed(t) && module_header(t, m.name@),
        (forall|t: Seq<Spanned>| !(#[trigger] read_from(src.spec_bytes(), t) && well_lexed(t))) ==> (r matches Err(e)
            && exists|t: Seq<Spanned>, ps: Seq<int>, qs: Seq<int>, i: int| #[trigger] stops_at(src.spec_bytes(), t, ps, qs, i)
                && e.line == newlines_in(src.spec_bytes(), i) + 1 && e.msg@ == stuck_msg(src.spec_bytes(), i)),
{
    parse_with(src, ParseOptions { asserts: true })
}

/// Parse a whole module.
pub fn parse_with(src: &str, opts: ParseOptions) -> (r: Result<Module, ParseError>)
    requires
        src.spec_bytes().len() < usize::MAX,
    ensures
        r matches Ok(m) ==> module_laws(m),
        r matches Ok(m) ==> exists|t: Seq<Spanned>| #![trigger read_from(src.spec_bytes(), t)]
            read_from(src.spec_bytes(), t) && well_lexed(t) && module_header(t, m.name@),
        (forall|t: Seq<Spanned>| !(#[trigger] read_from(src.spec_bytes(), t) && well_lexed(t))) ==> (r matches Err(e)
            && exists|t: Seq<Spanned>, ps: Seq<int>, qs: Seq<int>, i: int| #[trigger] stops_at(src.spec_bytes(), t, ps, qs, i)
                && e.line == newlines_in(src.spec_bytes(), i) + 1 && e.msg@ == stuck_msg(src.spec_bytes(), i)),
{
    let toks = match lex(src) {
        Ok(t) => t,
        Err(e) => return Err(ParseError { line: e.line, msg: e.msg }),
    };
    let enums = scan_enums(&toks);
    let lines = split_lines(src.as_bytes());
    let mut p = Parser {
        toks,
        pos: 0,
        pending: Vec::new(),
        cur_ret: None,
        in_sub: false,
        enums,
        hidden: 0,
        opts,
        lines,
        budget: Ghost(src.spec_bytes().len()),
    };
    let ghost t = p.toks@;
    let r = p.module();
    proof {
        if r is Ok {
            assert forall|i: int| #[trigger] newlines_skipped(t, 0, i) implies t[i].tok is Module
                && i + 2 < t.len() && word_tok(t[i + 1].tok, r->Ok_0.name@) && t[i + 2].tok is Newline by {
                assert(newlines_skipped(t, 0, i));
            }
            assert(read_from(src.spec_bytes(), t));
        }
    }
    r
}

} // verus!
