//! Small text utilities the rest of the crate is built from: comparing
//! strings, writing numbers in decimal, and growing a `String`.

use vstd::prelude::*;
use vstd::string::*;
use vstd::utf8::*;

verus! {

broadcast use vstd::utf8::encode_utf8_decode_utf8;

/// Two string slices are the same text.
pub fn str_eq(a: &str, b: &str) -> (r: bool)
    ensures
        r == (a@ == b@),
{
    let x = a.as_bytes();
    let y = b.as_bytes();
    if x.len() != y.len() {
        proof {
            if a@ == b@ {
                assert(x@ == y@);
            }
        }
        return false;
    }
    let mut i: usize = 0;
    while i < x.len()
        invariant
            x@ == encode_utf8(a@),
            y@ == encode_utf8(b@),
            x@.len() == y@.len(),
            i <= x@.len(),
            forall|k: int| 0 <= k < i ==> x@[k] == y@[k],
        decreases x@.len() - i,
    {
        if x[i] != y[i] {
            proof {
                if a@ == b@ {
                    assert(x@ == y@);
                }
            }
            return false;
        }
        i = i + 1;
    }
    proof {
        assert(x@ =~= y@);
        assert(decode_utf8(encode_utf8(a@)) == a@);
        assert(decode_utf8(encode_utf8(b@)) == b@);
    }
    true
}

/// The UTF-8 encoding of a concatenation is the concatenation of the
/// encodings.
/// A text is empty exactly when its UTF-8 bytes are.
pub proof fn lemma_encode_utf8_empty(s: Seq<char>)
    ensures
        (encode_utf8(s).len() == 0) == (s.len() == 0),
{
    if s.len() > 0 {
        assert(encode_scalar(s[0] as u32).len() >= 1);
        assert(encode_utf8(s) == encode_scalar(s[0] as u32) + encode_utf8(s.drop_first()));
    }
}

pub proof fn lemma_encode_utf8_append(a: Seq<char>, b: Seq<char>)
    ensures
        encode_utf8(a + b) == encode_utf8(a) + encode_utf8(b),
    decreases a.len(),
{
    if a.len() == 0 {
        assert(a + b =~= b);
        assert(encode_utf8(a) =~= Seq::<u8>::empty());
        assert(encode_utf8(a) + encode_utf8(b) =~= encode_utf8(b));
    } else {
        assert((a + b)[0] == a[0]);
        assert((a + b).drop_first() =~= a.drop_first() + b);
        lemma_encode_utf8_append(a.drop_first(), b);
        assert(encode_utf8(a + b) =~= encode_scalar(a[0] as u32) + encode_utf8(a.drop_first() + b));
        assert(encode_utf8(a) =~= encode_scalar(a[0] as u32) + encode_utf8(a.drop_first()));
    }
}

/// A scalar whose encoding starts with a byte below 128 is that byte.
proof fn lemma_ascii_lead(c: u32)
    requires
        encode_scalar(c)[0] < 128,
    ensures
        c < 128,
        encode_scalar(c) == seq![c as u8],
{
    if has_width_1_encoding(c) {
        assert((c & 0x7F) as u8 == c as u8) by (bit_vector)
            requires c <= 0x7F;
    } else if has_width_2_encoding(c) {
        let x: u8 = ((c >> 6) & 0x1F) as u8;
        assert((0xC0u8 | x) >= 128u8) by (bit_vector);
    } else if has_width_3_encoding(c) {
        let x: u8 = ((c >> 12) & 0x0F) as u8;
        assert((0xE0u8 | x) >= 128u8) by (bit_vector);
    } else {
        let x: u8 = ((c >> 18) & 0x7) as u8;
        assert((0xF0u8 | x) >= 128u8) by (bit_vector);
    }
}

/// Where the encoding of `s` starts with `k` ASCII bytes, those bytes are the
/// first `k` characters, and the rest of the encoding is the encoding of the
/// rest of `s`.
pub proof fn lemma_ascii_prefix(s: Seq<char>, k: nat)
    requires
        k <= encode_utf8(s).len(),
        forall|i: int| 0 <= i < k ==> #[trigger] encode_utf8(s)[i] < 128,
    ensures
        k <= s.len(),
        forall|i: int| 0 <= i < k ==> #[trigger] (s[i] as u32) == encode_utf8(s)[i] as u32,
        encode_utf8(s).skip(k as int) == encode_utf8(s.skip(k as int)),
    decreases k,
{
    if k == 0 {
        assert(s.skip(0) =~= s);
        assert(encode_utf8(s).skip(0) =~= encode_utf8(s));
    } else {
        assert(s.len() > 0);
        let e = encode_utf8(s);
        let rest = s.drop_first();
        assert(e == encode_scalar(s[0] as u32) + encode_utf8(rest));
        assert(encode_scalar(s[0] as u32)[0] == e[0]);
        lemma_ascii_lead(s[0] as u32);
        assert(encode_utf8(rest) =~= e.drop_first());
        assert forall|i: int| 0 <= i < k - 1 implies #[trigger] encode_utf8(rest)[i] < 128 by {
            assert(encode_utf8(rest)[i] == e[i + 1]);
        }
        lemma_ascii_prefix(rest, (k - 1) as nat);
        assert forall|i: int| 0 <= i < k implies #[trigger] (s[i] as u32) == encode_utf8(s)[i] as u32 by {
            if i > 0 {
                assert(s[i] == rest[i - 1]);
                assert(e[i] == encode_utf8(rest)[i - 1]);
            }
        }
        assert(rest.skip(k - 1) =~= s.skip(k as int));
        assert(encode_utf8(rest).skip(k - 1) =~= e.skip(k as int));
    }
}

/// An ASCII character encodes as one byte.
pub proof fn lemma_encode_ascii_char(c: char)
    requires
        (c as u32) < 128,
    ensures
        encode_utf8(seq![c]).len() == 1,
{
    assert(seq![c].drop_first() =~= Seq::<char>::empty());
    assert(encode_utf8(seq![c]) =~= encode_scalar(c as u32) + encode_utf8(Seq::<char>::empty()));
}

/// Append one character.
#[verifier::external_body]
pub fn push_char(s: &mut String, c: char)
    ensures
        final(s)@ == old(s)@.push(c),
{
    s.push(c);
}

/// Append a string slice.
pub fn push_str(s: &mut String, t: &str)
    ensures
        final(s)@ == old(s)@ + t@,
{
    s.append(t);
}

/// A fresh `String` holding `t`.
pub fn text(t: &str) -> (r: String)
    ensures
        r@ == t@,
{
    t.to_owned()
}

/// The text that a sequence of UTF-8 bytes spells, or `None` when the bytes
/// are not valid UTF-8.
///
/// Calls `std::str::from_utf8`, whose documentation promises `Ok` exactly for
/// valid UTF-8 and hands back the same bytes viewed as text.
#[verifier::external_body]
pub fn text_from_utf8(b: &[u8]) -> (r: Option<String>)
    ensures
        r is Some <==> valid_utf8(b@),
        r matches Some(s) ==> s@ == decode_utf8(b@),
{
    match std::str::from_utf8(b) {
        Ok(s) => Some(s.to_string()),
        Err(_) => None,
    }
}

/// The decimal digit `d` (0..=9) as a character.
pub open spec fn digit_char(d: int) -> char {
    if d == 0 { '0' } else if d == 1 { '1' } else if d == 2 { '2' } else if d == 3 { '3' }
    else if d == 4 { '4' } else if d == 5 { '5' } else if d == 6 { '6' } else if d == 7 { '7' }
    else if d == 8 { '8' } else { '9' }
}

/// The decimal spelling of a natural number, with no leading zeros (`0` for
/// zero).
pub open spec fn dec(n: nat) -> Seq<char>
    decreases n,
{
    if n < 10 {
        seq![digit_char(n as int)]
    } else {
        dec(n / 10).push(digit_char((n % 10) as int))
    }
}

/// The decimal spelling of an integer, with a leading `-` when negative.
pub open spec fn dec_int(n: int) -> Seq<char> {
    if n < 0 { seq!['-'] + dec((-n) as nat) } else { dec(n as nat) }
}

fn digit(d: u64) -> (c: char)
    requires
        d < 10,
    ensures
        c == digit_char(d as int),
{
    if d == 0 { '0' } else if d == 1 { '1' } else if d == 2 { '2' } else if d == 3 { '3' }
    else if d == 4 { '4' } else if d == 5 { '5' } else if d == 6 { '6' } else if d == 7 { '7' }
    else if d == 8 { '8' } else { '9' }
}

/// Append the decimal spelling of `n`.
pub fn push_dec(s: &mut String, n: u64)
    ensures
        final(s)@ == old(s)@ + dec(n as nat),
    decreases n,
{
    if n < 10 {
        push_char(s, digit(n));
        assert(dec(n as nat) =~= seq![digit_char(n as int)]);
    } else {
        push_dec(s, n / 10);
        push_char(s, digit(n % 10));
        assert(old(s)@ + dec(n as nat) =~= old(s)@ + dec((n / 10) as nat) + seq![digit_char((n % 10) as int)]);
    }
}

/// The decimal spelling of `n`.
pub fn dec_u64(n: u64) -> (r: String)
    ensures
        r@ == dec(n as nat),
{
    let mut s = String::new();
    push_dec(&mut s, n);
    assert(s@ =~= dec(n as nat));
    s
}

/// Append the decimal spelling of a signed `n`, with a leading `-` when it is
/// negative.
pub fn push_dec_i64(s: &mut String, n: i64)
    ensures
        final(s)@ == old(s)@ + dec_int(n as int),
{
    if n < 0 {
        push_char(s, '-');
        let m: u64 = if n == i64::MIN { 9223372036854775808u64 } else { (-n) as u64 };
        push_dec(s, m);
        assert(old(s)@ + dec_int(n as int) =~= old(s)@.push('-') + dec(m as nat));
    } else {
        push_dec(s, n as u64);
    }
}


/// The lowercase hexadecimal digit `d` (0..=15).
pub open spec fn hex_char(d: int) -> char {
    if d < 10 { digit_char(d) } else if d == 10 { 'a' } else if d == 11 { 'b' } else if d == 12 { 'c' }
    else if d == 13 { 'd' } else if d == 14 { 'e' } else { 'f' }
}

/// The hexadecimal spelling of a number below 256, with no leading zero.
pub open spec fn hex_small(v: int) -> Seq<char> {
    if v >= 16 { seq![hex_char(v / 16), hex_char(v % 16)] } else { seq![hex_char(v % 16)] }
}

/// The lowercase hexadecimal digit `d` (0..=15).
fn hex_digit(d: u32) -> (c: char)
    requires
        d < 16,
    ensures
        c == hex_char(d as int),
{
    if d < 10 { digit(d as u64) } else if d == 10 { 'a' } else if d == 11 { 'b' } else if d == 12 { 'c' }
    else if d == 13 { 'd' } else if d == 14 { 'e' } else { 'f' }
}

/// Push the hexadecimal spelling of a number below 256.
fn push_hex_small(s: &mut String, v: u32)
    requires
        v < 256,
    ensures
        final(s)@ == old(s)@ + hex_small(v as int),
{
    if v >= 16 {
        push_char(s, hex_digit(v / 16));
    }
    push_char(s, hex_digit(v % 16));
    proof {
        assert(s@ =~= old(s)@ + hex_small(v as int));
    }
}

/// How `{:?}` shows a byte read as a character: quoted, with the escapes
/// Rust writes for the quote, the backslash, the common control characters,
/// and `\u{..}` for the other unprintable ones.
pub open spec fn byte_char_debug(b: u8) -> Seq<char> {
    let body = if b == 0 { seq!['\\', '0'] }
        else if b == 9 { seq!['\\', 't'] }
        else if b == 10 { seq!['\\', 'n'] }
        else if b == 13 { seq!['\\', 'r'] }
        else if b == 39 { seq!['\\', '\''] }
        else if b == 92 { seq!['\\', '\\'] }
        else if b < 32 || b == 127 || (128 <= b && b < 160) || b == 173 {
            seq!['\\', 'u', '{'] + hex_small(b as int) + seq!['}']
        } else { seq![(b as u32) as char] };
    seq!['\''] + body + seq!['\'']
}

/// Append a byte read as a character (`b as char`) the way `{:?}` shows a
/// `char`: quoted, with the escapes Rust writes for the quote, the backslash,
/// the common control characters, and `\u{..}` for the other unprintable ones.
pub(crate) fn push_byte_char_debug(s: &mut String, b: u8)
    ensures
        final(s)@ == old(s)@ + byte_char_debug(b),
{
    let ghost start = s@;
    let shown = byte_char(b);
    push_char(s, '\'');
    if b == 0 {
        push_str(s, "\\0");
    } else if b == 9 {
        push_str(s, "\\t");
    } else if b == 10 {
        push_str(s, "\\n");
    } else if b == 13 {
        push_str(s, "\\r");
    } else if b == 39 {
        push_str(s, "\\'");
    } else if b == 92 {
        push_str(s, "\\\\");
    } else if b < 32 || b == 127 || (128 <= b && b < 160) || b == 173 {
        push_str(s, "\\u{");
        push_hex_small(s, b as u32);
        push_char(s, '}');
    } else {
        push_char(s, shown);
    }
    push_char(s, '\'');
    proof {
        reveal_strlit("\\0");
        reveal_strlit("\\t");
        reveal_strlit("\\n");
        reveal_strlit("\\r");
        reveal_strlit("\\'");
        reveal_strlit("\\\\");
        reveal_strlit("\\u{");
        vstd::utf8::char_u32_cast(shown, b as u32);
        assert(s@ =~= start + byte_char_debug(b));
    }
}

/// A byte read as a character, the way `b as char` reads it.
pub fn byte_char(b: u8) -> (c: char)
    ensures
        c as u32 == b as u32,
{
    b as char
}

/// How `{:?}` shows one character of a string.
pub open spec fn char_debug(c: char) -> Seq<char> {
    if c == '"' { seq!['\\', '"'] }
    else if c == '\\' { seq!['\\', '\\'] }
    else if c == '\n' { seq!['\\', 'n'] }
    else if c == '\t' { seq!['\\', 't'] }
    else if c == '\r' { seq!['\\', 'r'] }
    else if (c as u32) == 0 { seq!['\\', '0'] }
    else if (c as u32) < 32 || (c as u32) == 127 { seq!['\\', 'u', '{'] + hex_small((c as u32) as int) + seq!['}'] }
    else { seq![c] }
}

/// How `{:?}` shows the characters of a string, without the quotes.
pub open spec fn chars_debug(t: Seq<char>) -> Seq<char>
    decreases t.len(),
{
    if t.len() == 0 { Seq::empty() } else { chars_debug(t.drop_last()) + char_debug(t.last()) }
}

/// Append a string the way `{:?}` shows one: quoted, with the quote, the
/// backslash and the control characters escaped.
pub(crate) fn push_str_debug(s: &mut String, t: &str)
    ensures
        final(s)@ == old(s)@ + seq!['"'] + chars_debug(t@) + seq!['"'],
{
    push_char(s, '"');
    let ghost start = s@;
    let ghost all = t@;
    for c in it: t.chars()
        invariant
            all == t@,
            it.seq() == all,
            0 <= it.index() <= all.len(),
            s@ == start + chars_debug(all.take(it.index() as int)),
    {
        let ghost k = it.index();
        let ghost before = s@;
        assert(0 <= k < all.len() && c == all[k]);
        let code: u32 = c as u32;
        proof {
            reveal_strlit("\\\"");
            reveal_strlit("\\\\");
            reveal_strlit("\\n");
            reveal_strlit("\\t");
            reveal_strlit("\\r");
            reveal_strlit("\\0");
            reveal_strlit("\\u{");
        }
        if c == '"' {
            push_str(s, "\\\"");
        } else if c == '\\' {
            push_str(s, "\\\\");
        } else if c == '\n' {
            push_str(s, "\\n");
        } else if c == '\t' {
            push_str(s, "\\t");
        } else if c == '\r' {
            push_str(s, "\\r");
        } else if code == 0 {
            push_str(s, "\\0");
        } else if code < 32 || code == 127 {
            push_str(s, "\\u{");
            push_hex_small(s, code);
            push_char(s, '}');
            assert(s@ =~= before + char_debug(c));
        } else {
            push_char(s, c);
            assert(s@ =~= before + char_debug(c));
        }
        proof {
            reveal_strlit("\\\"");
            reveal_strlit("\\\\");
            reveal_strlit("\\n");
            reveal_strlit("\\t");
            reveal_strlit("\\r");
            reveal_strlit("\\0");
            reveal_strlit("\\u{");
            assert(all.take(k + 1).drop_last() =~= all.take(k));
            assert(all.take(k + 1).last() == c);
            assert(s@ =~= before + char_debug(c));
        }
    }
    proof {
        assert(all.take(all.len() as int) =~= all);
    }
    push_char(s, '"');
}

/// Append the text that `b[from..to]` spells, when it is valid UTF-8.
pub fn push_bytes(s: &mut String, b: &[u8], from: usize, to: usize)
    requires
        from <= to <= b@.len(),
    ensures
        valid_utf8(b@.subrange(from as int, to as int))
            ==> final(s)@ == old(s)@ + decode_utf8(b@.subrange(from as int, to as int)),
{
    let part = slice_range(b, from, to);
    match text_from_utf8(part.as_slice()) {
        Some(t) => push_str(s, t.as_str()),
        None => {},
    }
}

/// The bytes `b[from..to]`, copied.
pub fn slice_range(b: &[u8], from: usize, to: usize) -> (r: Vec<u8>)
    requires
        from <= to <= b@.len(),
    ensures
        r@ == b@.subrange(from as int, to as int),
{
    let mut out: Vec<u8> = Vec::new();
    let mut i = from;
    while i < to
        invariant
            from <= i <= to <= b@.len(),
            out@ == b@.subrange(from as int, i as int),
        decreases to - i,
    {
        out.push(b[i]);
        i = i + 1;
        assert(out@ =~= b@.subrange(from as int, i as int));
    }
    out
}


/// Whether `c` is white space by Unicode's White_Space property, the set
/// that `char::is_whitespace` and `str::trim` go by.
pub open spec fn is_white(c: char) -> bool {
    let u = c as u32;
    (9 <= u <= 13) || u == 32 || u == 0x85 || u == 0xA0 || u == 0x1680 || (0x2000 <= u <= 0x200A)
        || u == 0x2028 || u == 0x2029 || u == 0x202F || u == 0x205F || u == 0x3000
}

/// `s[i..j]` is `s` with its leading and trailing white space cut off.
pub open spec fn trim_bounds(s: Seq<char>, i: int, j: int) -> bool {
    &&& 0 <= i <= j <= s.len()
    &&& forall|k: int| 0 <= k < i ==> is_white(#[trigger] s[k])
    &&& forall|k: int| j <= k < s.len() ==> is_white(#[trigger] s[k])
    &&& (i < j ==> !is_white(s[i]) && !is_white(s[j - 1]))
}

/// `s` without its leading and trailing white space.
pub open spec fn trimmed(s: Seq<char>) -> Seq<char> {
    let (i, j) = choose|i: int, j: int| trim_bounds(s, i, j);
    s.subrange(i, j)
}

/// Every cut of `s` at its white-space ends gives the same text.
pub proof fn lemma_trim_bounds_unique(s: Seq<char>, i1: int, j1: int, i2: int, j2: int)
    requires
        trim_bounds(s, i1, j1),
        trim_bounds(s, i2, j2),
    ensures
        s.subrange(i1, j1) == s.subrange(i2, j2),
{
    if i1 < j1 && i2 < j2 {
        if i1 < i2 { assert(is_white(s[i1])); }
        if i2 < i1 { assert(is_white(s[i2])); }
        if j1 < j2 { assert(is_white(s[j2 - 1])); }
        if j2 < j1 { assert(is_white(s[j1 - 1])); }
    } else if i1 < j1 {
        if i1 < i2 { assert(is_white(s[i1])); } else { assert(is_white(s[i1])); }
    } else if i2 < j2 {
        if i2 < i1 { assert(is_white(s[i2])); } else { assert(is_white(s[i2])); }
    }
    assert(s.subrange(i1, j1) =~= s.subrange(i2, j2));
}

fn is_white_char(c: char) -> (r: bool)
    ensures
        r == is_white(c),
{
    let u: u32 = c as u32;
    (9 <= u && u <= 13) || u == 32 || u == 0x85 || u == 0xA0 || u == 0x1680 || (0x2000 <= u && u <= 0x200A)
        || u == 0x2028 || u == 0x2029 || u == 0x202F || u == 0x205F || u == 0x3000
}

/// A copy of `s` with the leading and trailing white space removed, as
/// `str::trim` gives it.
pub fn trim_text(s: &str) -> (r: String)
    ensures
        r@ == trimmed(s@),
{
    let mut cs: Vec<char> = Vec::new();
    let ghost all = s@;
    for c in it: s.chars()
        invariant
            all == s@,
            it.seq() == all,
            0 <= it.index() <= all.len(),
            cs@ == all.take(it.index() as int),
    {
        let ghost k = it.index();
        assert(0 <= k < all.len() && c == all[k]);
        cs.push(c);
        assert(cs@ =~= all.take(k + 1));
    }
    assert(cs@ =~= s@);
    let n = cs.len();
    let mut i: usize = 0;
    while i < n && is_white_char(cs[i])
        invariant
            i <= n == cs@.len(),
            forall|k: int| 0 <= k < i ==> is_white(#[trigger] cs@[k]),
        decreases n - i,
    {
        i = i + 1;
    }
    let mut j: usize = n;
    while j > i && is_white_char(cs[j - 1])
        invariant
            i <= j <= n == cs@.len(),
            forall|k: int| j <= k < n ==> is_white(#[trigger] cs@[k]),
        decreases j,
    {
        j = j - 1;
    }
    let mut out = String::new();
    let mut k = i;
    while k < j
        invariant
            i <= k <= j <= n == cs@.len(),
            out@ == cs@.subrange(i as int, k as int),
        decreases j - k,
    {
        push_char(&mut out, cs[k]);
        assert(out@ =~= cs@.subrange(i as int, k + 1));
        k = k + 1;
    }
    proof {
        assert(trim_bounds(s@, i as int, j as int));
        let (a, b) = choose|a: int, b: int| trim_bounds(s@, a, b);
        lemma_trim_bounds_unique(s@, a, b, i as int, j as int);
    }
    out
}
} // verus!
