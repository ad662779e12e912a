//! The validator's vocabulary: its diagnostics, what it can be told beyond
//! the registry, and the pieces of text it builds its messages from.

use vstd::prelude::*;
use vstd::string::StringSliceAdditionalSpecFns;
use vstd::utf8::encode_utf8;
use std::collections::HashMap;
use crate::text::{dec, push_char, push_dec, push_str};
use crate::registry::{has_key, record_named, Registry};
use crate::types::{ty_spelling, Elem, Expr, RecordDef, Span, Stmt, StmtKind, Ty};

verus! {

/// A diagnostic: a message and where it points.
#[derive(Debug, Clone, PartialEq)]
pub struct ValidateError {
    pub msg: String,
    /// 1-based source line; 0 when the position is not known.
    pub line: usize,
    /// 1-based byte columns of the offending name, `end_col` one past its last
    /// byte; both 0 when only the line is known.
    pub col: usize,
    pub end_col: usize,
}

impl ValidateError {
    /// The diagnostic as a compiler prints it: `line N: message` where the
    /// line is known, the message alone where it is not.
    pub fn message(&self) -> (r: String)
        ensures
            r@ == (if self.line > 0 { "line "@ + dec(self.line as nat) + ": "@ + self.msg@ } else { self.msg@ }),
    {
        let mut out = String::new();
        if self.line > 0 {
            push_str(&mut out, "line ");
            push_dec(&mut out, self.line as u64);
            push_str(&mut out, ": ");
        }
        push_str(&mut out, self.msg.as_str());
        proof {
            if self.line > 0 {
                assert(out@ =~= "line "@ + dec(self.line as nat) + ": "@ + self.msg@);
            } else {
                assert(out@ =~= self.msg@);
            }
        }
        out
    }

    /// Where the diagnostic points.
    pub fn span(&self) -> (r: Span)
        ensures
            r.line == self.line && r.col == self.col && r.end_col == self.end_col,
    {
        Span::new(self.line, self.col, self.end_col)
    }
}

/// What the validator can be told beyond the registry: for a command the
/// module cannot see, the library that declares it.
#[derive(Debug, Clone)]
pub struct Hints {
    /// Command name -> the library that declares it.
    pub elsewhere: HashMap<String, String>,
}

impl Default for Hints {
    /// No hints at all.
    fn default() -> (r: Hints)
        ensures
            r.elsewhere@.len() == 0,
    {
        Hints { elsewhere: HashMap::new() }
    }
}

/// The first index at or after `from` that holds a backtick.
pub open spec fn tick_from(s: Seq<char>, from: int) -> Option<int>
    decreases s.len() - from,
{
    if from < 0 || from >= s.len() {
        None
    } else if s[from] == '`' {
        Some(from)
    } else {
        tick_from(s, from + 1)
    }
}

/// With no backtick in `[a, b)`, the first one from `a` is the first from `b`.
proof fn lemma_tick_skip(s: Seq<char>, a: int, b: int)
    requires
        0 <= a <= b <= s.len(),
        forall|i: int| a <= i < b ==> s[i] != '`',
    ensures
        tick_from(s, a) == tick_from(s, b),
    decreases b - a,
{
    if a < b {
        lemma_tick_skip(s, a + 1, b);
    }
}

/// The text up to the first backtick, if there is one.
pub open spec fn spec_backtick_end(s: Seq<char>) -> Option<Seq<char>> {
    match tick_from(s, 0) {
        Some(q) => Some(s.subrange(0, q)),
        None => None,
    }
}

/// The text between the first two backticks, if there are two.
pub open spec fn spec_backticked(s: Seq<char>) -> Option<Seq<char>> {
    match tick_from(s, 0) {
        Some(p) => match tick_from(s, p + 1) {
            Some(q) => Some(s.subrange(p + 1, q)),
            None => None,
        },
        None => None,
    }
}

/// The first `` `word` `` in a message: the text between its first two
/// backticks.
pub fn backticked(msg: &str) -> (r: Option<String>)
    ensures
        match r {
            Some(w) => spec_backticked(msg@) == Some(w@),
            None => spec_backticked(msg@) is None,
        },
{
    let ghost s = msg@;
    let mut inside = false;
    let mut word = String::new();
    let ghost mut open: int = -1;
    for c in it: msg.chars()
        invariant
            s == msg@,
            it.seq() == s,
            0 <= it.index() <= s.len(),
            !inside ==> forall|i: int| 0 <= i < it.index() ==> s[i] != '`',
            !inside ==> word@ == Seq::<char>::empty(),
            inside ==> 0 <= open < it.index() && tick_from(s, 0) == Some(open)
                && (forall|i: int| open < i < it.index() ==> s[i] != '`')
                && word@ == s.subrange(open + 1, it.index() as int),
    {
        let ghost k = it.index();
        assert(0 <= k < s.len() && c == s[k]);
        if c == '`' {
            if inside {
                proof {
                    lemma_tick_skip(s, open + 1, k);
                }
                return Some(word);
            }
            proof {
                lemma_tick_skip(s, 0, k);
                open = k;
                assert(word@ =~= s.subrange(open + 1, k + 1));
            }
            inside = true;
        } else if inside {
            push_char(&mut word, c);
            proof {
                assert(word@ =~= s.subrange(open + 1, k + 1));
            }
        }
    }
    proof {
        if inside {
            lemma_tick_skip(s, open + 1, s.len() as int);
        } else {
            lemma_tick_skip(s, 0, s.len() as int);
        }
    }
    None
}

/// `name` of `` name`... ``: the rest of a message after a name's opening
/// backtick, cut at the closing one.
pub fn backtick_end(rest: &str) -> (r: Option<String>)
    ensures
        match r {
            Some(w) => spec_backtick_end(rest@) == Some(w@),
            None => spec_backtick_end(rest@) is None,
        },
{
    let ghost s = rest@;
    let mut word = String::new();
    for c in it: rest.chars()
        invariant
            s == rest@,
            it.seq() == s,
            0 <= it.index() <= s.len(),
            forall|i: int| 0 <= i < it.index() ==> s[i] != '`',
            word@ == s.subrange(0, it.index() as int),
    {
        let ghost k = it.index();
        assert(0 <= k < s.len() && c == s[k]);
        if c == '`' {
            proof {
                lemma_tick_skip(s, 0, k);
            }
            return Some(word);
        }
        push_char(&mut word, c);
        proof {
            assert(word@ =~= s.subrange(0, k + 1));
        }
    }
    proof {
        lemma_tick_skip(s, 0, s.len() as int);
    }
    None
}

/// The parts joined with `, ` between them.
pub open spec fn comma_joined(parts: Seq<Seq<char>>) -> Seq<char>
    decreases parts.len(),
{
    if parts.len() == 0 {
        Seq::empty()
    } else if parts.len() == 1 {
        parts[0]
    } else {
        comma_joined(parts.drop_last()) + seq![',', ' '] + parts.last()
    }
}

/// `int, text`: the spellings of some types, joined.
pub fn type_list(types: &[Ty]) -> (r: String)
    ensures
        r@ == comma_joined(types@.map_values(|t: Ty| ty_spelling(t))),
{
    let mut out = String::new();
    let mut i: usize = 0;
    while i < types.len()
        invariant
            i <= types@.len(),
            out@ == comma_joined(types@.take(i as int).map_values(|t: Ty| ty_spelling(t))),
        decreases types@.len() - i,
    {
        proof {
            let next = types@.take(i + 1).map_values(|t: Ty| ty_spelling(t));
            assert(next.drop_last() =~= types@.take(i as int).map_values(|t: Ty| ty_spelling(t)));
        }
        if i > 0 {
            push_str(&mut out, ", ");
        }
        push_str(&mut out, types[i].as_str());
        proof {
            let next = types@.take(i + 1).map_values(|t: Ty| ty_spelling(t));
            if i == 0 {
                assert(out@ =~= next[0]);
            } else {
                reveal_strlit(", ");
                assert(out@ =~= comma_joined(next.drop_last()) + seq![',', ' '] + next.last());
            }
        }
        i = i + 1;
    }
    proof {
        assert(types@.take(i as int) =~= types@);
    }
    out
}

/// Which of the six parameter-name stems a type gets: `n` for the integers,
/// `x` for `double`, `s` for `text`, `flag` for `bool`, `data` for `bytes`,
/// and `value` for anything else.
pub open spec fn stem_of(t: Ty) -> int {
    match t {
        Ty::Int | Ty::Int64 => 0,
        Ty::Double => 1,
        Ty::Text => 2,
        Ty::Bool => 3,
        Ty::Bytes => 4,
        _ => 5,
    }
}

pub open spec fn stem_text(k: int) -> Seq<char> {
    if k == 0 {
        seq!['n']
    } else if k == 1 {
        seq!['x']
    } else if k == 2 {
        seq!['s']
    } else if k == 3 {
        seq!['f', 'l', 'a', 'g']
    } else if k == 4 {
        seq!['d', 'a', 't', 'a']
    } else {
        seq!['v', 'a', 'l', 'u', 'e']
    }
}

/// How many of `types` share the stem `k`.
pub open spec fn stem_count(types: Seq<Ty>, k: int) -> nat
    decreases types.len(),
{
    if types.len() == 0 {
        0
    } else {
        stem_count(types.drop_last(), k) + if stem_of(types.last()) == k { 1nat } else { 0nat }
    }
}

/// The entry for the `i`-th type: its stem, numbered from the second use of
/// that stem on, then `: ` and the type.
pub open spec fn param_entry(types: Seq<Ty>, i: int) -> Seq<char> {
    let k = stem_of(types[i]);
    let n = stem_count(types.take(i + 1), k);
    stem_text(k) + (if n == 1 { Seq::empty() } else { dec(n) }) + seq![':', ' '] + ty_spelling(types[i])
}

/// A parameter list for these types, as a handler would write it.
pub open spec fn spec_param_list(types: Seq<Ty>) -> Seq<char> {
    comma_joined(Seq::new(types.len(), |i: int| param_entry(types, i)))
}

fn stem(t: Ty) -> (r: (usize, &'static str))
    ensures
        r.0 == stem_of(t),
        r.1@ == stem_text(stem_of(t)),
{
    proof {
        reveal_strlit("n");
        reveal_strlit("x");
        reveal_strlit("s");
        reveal_strlit("flag");
        reveal_strlit("data");
        reveal_strlit("value");
    }
    match t {
        Ty::Int | Ty::Int64 => (0, "n"),
        Ty::Double => (1, "x"),
        Ty::Text => (2, "s"),
        Ty::Bool => (3, "flag"),
        Ty::Bytes => (4, "data"),
        _ => (5, "value"),
    }
}

/// `n: int, s: text, n2: int`: a parameter list a handler could paste. The
/// names are made up from the types, numbered from a stem's second use on.
pub fn param_list(types: &[Ty]) -> (r: String)
    ensures
        r@ == spec_param_list(types@),
{
    let mut counts: Vec<usize> = vec![0, 0, 0, 0, 0, 0];
    let mut out = String::new();
    let mut i: usize = 0;
    while i < types.len()
        invariant
            i <= types@.len(),
            counts@.len() == 6,
            forall|k: int| 0 <= k < 6 ==> #[trigger] counts@[k] == stem_count(types@.take(i as int), k),
            forall|k: int| 0 <= k < 6 ==> #[trigger] counts@[k] <= i,
            out@ == comma_joined(Seq::new(i as nat, |j: int| param_entry(types@, j))),
        decreases types@.len() - i,
    {
        let t = types[i];
        let (k, word) = stem(t);
        proof {
            assert(types@.take(i + 1).drop_last() =~= types@.take(i as int));
            assert forall|m: int| 0 <= m < 6 implies #[trigger] stem_count(types@.take(i + 1), m)
                == stem_count(types@.take(i as int), m) + if m == k { 1nat } else { 0nat } by {}
        }
        let seen = counts[k] + 1;
        counts.set(k, seen);
        if i > 0 {
            push_str(&mut out, ", ");
        }
        let ghost before = out@;
        push_str(&mut out, word);
        if seen != 1 {
            push_dec(&mut out, seen as u64);
        }
        push_str(&mut out, ": ");
        push_str(&mut out, t.as_str());
        proof {
            reveal_strlit(", ");
            reveal_strlit(": ");
            let all = Seq::new((i + 1) as nat, |j: int| param_entry(types@, j));
            let prev = Seq::new(i as nat, |j: int| param_entry(types@, j));
            assert(all.drop_last() =~= prev);
            assert(types@.take(i + 1)[i as int] == t);
            let entry = param_entry(types@, i as int);
            assert(out@ =~= before + entry);
            if i == 0 {
                assert(out@ =~= all[0]);
            } else {
                assert(out@ =~= comma_joined(prev) + seq![',', ' '] + all.last());
            }
        }
        i = i + 1;
    }
    out
}

/// The restricted edit distance between `a[..i]` and `b[..j]`: insertions,
/// deletions and substitutions cost one, and so does swapping two adjacent
/// bytes.
pub open spec fn osa(a: Seq<u8>, b: Seq<u8>, i: nat, j: nat) -> nat
    decreases i + j,
{
    if i == 0 {
        j
    } else if j == 0 {
        i
    } else {
        let cost: nat = if a[i - 1] == b[j - 1] { 0 } else { 1 };
        let del = osa(a, b, (i - 1) as nat, j) + 1;
        let ins = osa(a, b, i, (j - 1) as nat) + 1;
        let sub = osa(a, b, (i - 1) as nat, (j - 1) as nat) + cost;
        let best = if del <= ins && del <= sub { del } else if ins <= sub { ins } else { sub };
        if i > 1 && j > 1 && a[i - 1] == b[j - 2] && a[i - 2] == b[j - 1] {
            let swap = osa(a, b, (i - 2) as nat, (j - 2) as nat) + 1;
            if swap < best { swap } else { best }
        } else {
            best
        }
    }
}

/// The distance between two prefixes is no more than the longer of them.
proof fn lemma_osa_bound(a: Seq<u8>, b: Seq<u8>, i: nat, j: nat)
    ensures
        osa(a, b, i, j) <= if i >= j { i } else { j },
    decreases i + j,
{
    if i > 0 && j > 0 {
        lemma_osa_bound(a, b, (i - 1) as nat, (j - 1) as nat);
    }
}

/// A text is no edits away from itself.
pub proof fn law_distance_to_self_is_zero(a: Seq<u8>, i: nat)
    requires
        i <= a.len(),
    ensures
        osa(a, a, i, i) == 0,
    decreases i,
{
    if i > 0 {
        law_distance_to_self_is_zero(a, (i - 1) as nat);
    }
}

/// The distance from `a` to `b` is the distance from `b` to `a`.
pub proof fn law_distance_is_symmetric(a: Seq<u8>, b: Seq<u8>, i: nat, j: nat)
    requires
        i <= a.len(),
        j <= b.len(),
    ensures
        osa(a, b, i, j) == osa(b, a, j, i),
    decreases i + j,
{
    if i > 0 && j > 0 {
        law_distance_is_symmetric(a, b, (i - 1) as nat, j);
        law_distance_is_symmetric(a, b, i, (j - 1) as nat);
        law_distance_is_symmetric(a, b, (i - 1) as nat, (j - 1) as nat);
        if i > 1 && j > 1 {
            law_distance_is_symmetric(a, b, (i - 2) as nat, (j - 2) as nat);
        }
    }
}

/// Texts that agree on their first `i` bytes are no edits apart there.
proof fn lemma_same_prefix_no_edits(a: Seq<u8>, b: Seq<u8>, i: nat)
    requires
        i <= a.len(),
        i <= b.len(),
        forall|k: int| 0 <= k < i ==> a[k] == b[k],
    ensures
        osa(a, b, i, i) == 0,
    decreases i,
{
    if i > 0 {
        lemma_same_prefix_no_edits(a, b, (i - 1) as nat);
    }
}

/// Swapping two adjacent bytes is one edit, not two: texts that differ only
/// in the order of their last two bytes are at most one edit apart.
pub proof fn law_adjacent_swap_is_one_edit(a: Seq<u8>, b: Seq<u8>, i: nat)
    requires
        2 <= i,
        i <= a.len(),
        i <= b.len(),
        forall|k: int| 0 <= k < i - 2 ==> a[k] == b[k],
        a[i - 1] == b[i - 2],
        a[i - 2] == b[i - 1],
    ensures
        osa(a, b, i, i) <= 1,
{
    lemma_same_prefix_no_edits(a, b, (i - 2) as nat);
}

/// Changing one byte is one edit: texts that differ at most in their last
/// byte are at most one edit apart.
pub proof fn law_one_substitution_is_one_edit(a: Seq<u8>, b: Seq<u8>, i: nat)
    requires
        1 <= i,
        i <= a.len(),
        i <= b.len(),
        forall|k: int| 0 <= k < i - 1 ==> a[k] == b[k],
    ensures
        osa(a, b, i, i) <= 1,
{
    lemma_same_prefix_no_edits(a, b, (i - 1) as nat);
}

/// The edit distance between two texts, over their bytes, with an adjacent
/// transposition counted as one edit: `teh` is one slip away from `the`.
pub fn edit_distance(a: &str, b: &str) -> (r: usize)
    requires
        a.spec_bytes().len() < usize::MAX,
        b.spec_bytes().len() < usize::MAX,
    ensures
        r == osa(a.spec_bytes(), b.spec_bytes(), a.spec_bytes().len(), b.spec_bytes().len()),
{
    let x = a.as_bytes();
    let y = b.as_bytes();
    let ghost sa = x@;
    let ghost sb = y@;
    let m = x.len();
    let n = y.len();
    let mut prev2: Vec<usize> = Vec::new();
    let mut prev: Vec<usize> = Vec::new();
    let mut j: usize = 0;
    while j <= n
        invariant
            n == sb.len() < usize::MAX,
            j <= n + 1,
            prev@.len() == j,
            forall|k: int| 0 <= k < j ==> #[trigger] prev@[k] == osa(sa, sb, 0, k as nat),
        decreases n + 1 - j,
    {
        prev.push(j);
        j = j + 1;
    }
    let mut i: usize = 1;
    while i <= m
        invariant
            m == sa.len() < usize::MAX,
            n == sb.len() < usize::MAX,
            x@ == sa,
            y@ == sb,
            1 <= i <= m + 1,
            prev@.len() == n + 1,
            forall|k: int| 0 <= k <= n ==> #[trigger] prev@[k] == osa(sa, sb, (i - 1) as nat, k as nat),
            i >= 2 ==> prev2@.len() == n + 1,
            i >= 2 ==> forall|k: int| 0 <= k <= n ==> #[trigger] prev2@[k] == osa(sa, sb, (i - 2) as nat, k as nat),
        decreases m + 1 - i,
    {
        let mut cur: Vec<usize> = Vec::new();
        cur.push(i);
        let mut j: usize = 1;
        while j <= n
            invariant
                m == sa.len() < usize::MAX,
                n == sb.len() < usize::MAX,
                x@ == sa,
                y@ == sb,
                1 <= i <= m,
                1 <= j <= n + 1,
                cur@.len() == j,
                prev@.len() == n + 1,
                forall|k: int| 0 <= k <= n ==> #[trigger] prev@[k] == osa(sa, sb, (i - 1) as nat, k as nat),
                i >= 2 ==> prev2@.len() == n + 1,
                i >= 2 ==> forall|k: int| 0 <= k <= n ==> #[trigger] prev2@[k] == osa(sa, sb, (i - 2) as nat, k as nat),
                forall|k: int| 0 <= k < j ==> #[trigger] cur@[k] == osa(sa, sb, i as nat, k as nat),
            decreases n + 1 - j,
        {
            proof {
                lemma_osa_bound(sa, sb, (i - 1) as nat, j as nat);
                lemma_osa_bound(sa, sb, i as nat, (j - 1) as nat);
                lemma_osa_bound(sa, sb, (i - 1) as nat, (j - 1) as nat);
                if i >= 2 && j >= 2 {
                    lemma_osa_bound(sa, sb, (i - 2) as nat, (j - 2) as nat);
                }
            }
            let cost: usize = if x[i - 1] == y[j - 1] { 0 } else { 1 };
            let del = prev[j] + 1;
            let ins = cur[j - 1] + 1;
            let sub = prev[j - 1] + cost;
            let mut best = if del <= ins && del <= sub { del } else if ins <= sub { ins } else { sub };
            if i > 1 && j > 1 && x[i - 1] == y[j - 2] && x[i - 2] == y[j - 1] {
                let swap = prev2[j - 2] + 1;
                if swap < best {
                    best = swap;
                }
            }
            cur.push(best);
            j = j + 1;
        }
        prev2 = prev;
        prev = cur;
        i = i + 1;
    }
    prev[n]
}

/// A character with the ASCII capitals folded to small letters.
pub open spec fn ascii_lower_char(c: char) -> char {
    if 'A' <= c <= 'Z' { ((c as u32) + 32) as char } else { c }
}

/// Fold the ASCII capitals of a text to small letters.
pub fn ascii_lower(s: &str) -> (r: String)
    ensures
        r@ == s@.map_values(|c: char| ascii_lower_char(c)),
{
    let ghost t = s@;
    let mut out = String::new();
    for c in it: s.chars()
        invariant
            t == s@,
            it.seq() == t,
            0 <= it.index() <= t.len(),
            out@ == t.take(it.index() as int).map_values(|c: char| ascii_lower_char(c)),
    {
        let ghost k = it.index();
        let l = if 'A' <= c && c <= 'Z' {
            proof {
                assert(((c as u32) + 32) as char == ascii_lower_char(c));
            }
            ((c as u32 + 32) as u8) as char
        } else {
            c
        };
        push_char(&mut out, l);
        proof {
            assert(t.take(k + 1) =~= t.take(k as int).push(c));
            assert(out@ =~= t.take(k + 1).map_values(|c: char| ascii_lower_char(c)));
        }
    }
    proof {
        assert(t.take(t.len() as int) =~= t);
    }
    out
}

/// Whether `a` sorts strictly before `b`, byte by byte.
pub open spec fn lex_less(a: Seq<u8>, b: Seq<u8>) -> bool
    decreases a.len(),
{
    if b.len() == 0 {
        false
    } else if a.len() == 0 {
        true
    } else if a[0] != b[0] {
        a[0] < b[0]
    } else {
        lex_less(a.drop_first(), b.drop_first())
    }
}

pub(crate) fn str_less(a: &str, b: &str) -> (r: bool)
    ensures
        r == lex_less(a.spec_bytes(), b.spec_bytes()),
{
    let x = a.as_bytes();
    let y = b.as_bytes();
    let mut i: usize = 0;
    proof {
        assert(x@.skip(0) =~= x@);
        assert(y@.skip(0) =~= y@);
    }
    while i < x.len() && i < y.len() && x[i] == y[i]
        invariant
            i <= x@.len(),
            i <= y@.len(),
            forall|k: int| 0 <= k < i ==> x@[k] == y@[k],
            lex_less(x@, y@) == lex_less(x@.skip(i as int), y@.skip(i as int)),
        decreases x@.len() - i,
    {
        proof {
            assert(x@.skip(i as int).drop_first() =~= x@.skip(i + 1));
            assert(y@.skip(i as int).drop_first() =~= y@.skip(i + 1));
        }
        i = i + 1;
    }
    if i >= y.len() {
        false
    } else if i >= x.len() {
        true
    } else {
        x[i] < y[i]
    }
}

/// How far a text may be from a name and still be read as a slip for it:
/// one edit for a name of up to four bytes, two for a longer one.
pub open spec fn allowance(name: Seq<char>) -> nat {
    if encode_utf8(name).len() <= 4 { 1 } else { 2 }
}

/// How far a candidate is from a name, compared without case.
pub open spec fn fold_distance(name: Seq<char>, c: Seq<char>) -> nat {
    let a = encode_utf8(name.map_values(|x: char| ascii_lower_char(x)));
    let b = encode_utf8(c.map_values(|x: char| ascii_lower_char(x)));
    osa(a, b, a.len(), b.len())
}

/// A candidate close enough to `name` to be a slip for it.
pub open spec fn near(name: Seq<char>, c: Seq<char>) -> bool {
    c != name && fold_distance(name, c) <= allowance(name)
}

/// `w` is the closest of the candidates to `name`: near it, and no other
/// near candidate is closer, or as close and sorted before it.
pub open spec fn is_closest(name: Seq<char>, cands: Seq<Seq<char>>, w: Seq<char>) -> bool {
    &&& exists|i: int| 0 <= i < cands.len() && #[trigger] cands[i] == w
    &&& near(name, w)
    &&& forall|j: int| 0 <= j < cands.len() && near(name, #[trigger] cands[j]) ==> {
        ||| fold_distance(name, w) < fold_distance(name, cands[j])
        ||| (fold_distance(name, w) == fold_distance(name, cands[j])
            && !lex_less(encode_utf8(cands[j]), encode_utf8(w)))
    }
}

pub open spec fn has_near(name: Seq<char>, cands: Seq<Seq<char>>) -> bool {
    exists|i: int| 0 <= i < cands.len() && near(name, #[trigger] cands[i])
}

pub open spec fn views(cands: Seq<&str>) -> Seq<Seq<char>> {
    cands.map_values(|c: &str| c@)
}

proof fn lemma_lex_trans(a: Seq<u8>, b: Seq<u8>, c: Seq<u8>)
    requires
        lex_less(a, b),
        lex_less(b, c),
    ensures
        lex_less(a, c),
    decreases a.len(),
{
    if a.len() > 0 && b.len() > 0 && c.len() > 0 && a[0] == b[0] && b[0] == c[0] {
        lemma_lex_trans(a.drop_first(), b.drop_first(), c.drop_first());
    }
}

proof fn lemma_lex_irrefl(a: Seq<u8>)
    ensures
        !lex_less(a, a),
    decreases a.len(),
{
    if a.len() > 0 {
        lemma_lex_irrefl(a.drop_first());
    }
}

pub(crate) proof fn lemma_lex_total(a: Seq<u8>, b: Seq<u8>)
    ensures
        lex_less(a, b) || lex_less(b, a) || a == b,
    decreases a.len(),
{
    if a.len() > 0 && b.len() > 0 && a[0] == b[0] {
        lemma_lex_total(a.drop_first(), b.drop_first());
        if a.drop_first() == b.drop_first() {
            assert(a =~= seq![a[0]] + a.drop_first());
            assert(b =~= seq![b[0]] + b.drop_first());
        }
    } else if a.len() == 0 && b.len() == 0 {
        assert(a =~= b);
    }
}

pub(crate) proof fn lemma_lex_order(a: Seq<u8>, b: Seq<u8>, c: Seq<u8>)
    ensures
        lex_less(a, b) && lex_less(b, c) ==> lex_less(a, c),
        !lex_less(a, a),
        !lex_less(a, b) && !lex_less(b, c) ==> !lex_less(a, c),
{
    lemma_lex_irrefl(a);
    if lex_less(a, b) && lex_less(b, c) {
        lemma_lex_trans(a, b, c);
    }
    if !lex_less(a, b) && !lex_less(b, c) && lex_less(a, c) {
        lemma_lex_total(a, b);
        lemma_lex_total(b, c);
        if a == b {
        } else if b == c {
        } else {
            lemma_lex_trans(b, a, c);
            lemma_lex_trans(c, b, a);
            lemma_lex_trans(a, c, a);
            lemma_lex_irrefl(a);
        }
    }
}

/// The candidate closest to `name` by edit distance, if any is close enough
/// to be a plausible slip rather than a different word. Compared without
/// case; a candidate spelled exactly like `name` is not a suggestion; ties go
/// to the one that sorts first.
pub fn closest<'a>(name: &str, candidates: &[&'a str]) -> (r: Option<&'a str>)
    requires
        name.spec_bytes().len() < usize::MAX,
        forall|i: int| 0 <= i < candidates@.len() ==> (#[trigger] candidates@[i]).spec_bytes().len() < usize::MAX,
    ensures
        match r {
            Some(c) => is_closest(name@, views(candidates@), c@),
            None => !has_near(name@, views(candidates@)),
        },
{
    let limit: usize = if name.len() <= 4 { 1 } else { 2 };
    let lower = ascii_lower(name);
    proof {
        lemma_lower_len(name@);
    }
    let ghost cs = views(candidates@);
    let mut best: Option<(usize, &'a str)> = None;
    let mut i: usize = 0;
    while i < candidates.len()
        invariant
            i <= candidates@.len(),
            cs == views(candidates@),
            forall|k: int| 0 <= k < candidates@.len() ==> (#[trigger] candidates@[k]).spec_bytes().len() < usize::MAX,
            limit == allowance(name@),
            lower@ == name@.map_values(|x: char| ascii_lower_char(x)),
            encode_utf8(lower@).len() == encode_utf8(name@).len() < usize::MAX,
            match best {
                None => forall|j: int| 0 <= j < i ==> !near(name@, #[trigger] cs[j]),
                Some((d, c)) => {
                    &&& d == fold_distance(name@, c@)
                    &&& exists|b: int| 0 <= b < i && #[trigger] cs[b] == c@
                    &&& near(name@, c@)
                    &&& forall|j: int| 0 <= j < i && near(name@, #[trigger] cs[j]) ==> {
                        ||| fold_distance(name@, c@) < fold_distance(name@, cs[j])
                        ||| (fold_distance(name@, c@) == fold_distance(name@, cs[j])
                            && !lex_less(encode_utf8(cs[j]), encode_utf8(c@)))
                    }
                },
            },
        decreases candidates@.len() - i,
    {
        let c = candidates[i];
        assert(cs[i as int] == c@);
        if !crate::text::str_eq(c, name) {
            let lc = ascii_lower(c);
            proof {
                lemma_lower_len(c@);
            }
            let d = edit_distance(lower.as_str(), lc.as_str());
            assert(d == fold_distance(name@, c@));
            if d <= limit {
                let better = match best {
                    None => true,
                    Some((bd, bc)) => d < bd || (d == bd && str_less(c, bc)),
                };
                if better {
                    proof {
                        if let Some((bd, bc)) = best {
                            assert forall|j: int| 0 <= j < i && near(name@, #[trigger] cs[j]) implies {
                                ||| fold_distance(name@, c@) < fold_distance(name@, cs[j])
                                ||| (fold_distance(name@, c@) == fold_distance(name@, cs[j])
                                    && !lex_less(encode_utf8(cs[j]), encode_utf8(c@)))
                            } by {
                                lemma_lex_order(encode_utf8(cs[j]), encode_utf8(c@), encode_utf8(bc@));
                            }
                        }
                        lemma_lex_order(encode_utf8(c@), encode_utf8(c@), encode_utf8(c@));
                    }
                    best = Some((d, c));
                } else {
                    proof {
                        if let Some((bd, bc)) = best {
                            lemma_lex_order(encode_utf8(c@), encode_utf8(bc@), encode_utf8(bc@));
                        }
                    }
                }
            }
        }
        i = i + 1;
    }
    match best {
        Some((_, c)) => Some(c),
        None => None,
    }
}

/// Lowering ASCII capitals changes no encoded length.
proof fn lemma_lower_len(s: Seq<char>)
    ensures
        encode_utf8(s.map_values(|x: char| ascii_lower_char(x))).len() == encode_utf8(s).len(),
    decreases s.len(),
{
    if s.len() > 0 {
        let l = s.map_values(|x: char| ascii_lower_char(x));
        assert(l.drop_first() =~= s.drop_first().map_values(|x: char| ascii_lower_char(x)));
        lemma_lower_len(s.drop_first());
        let c = s[0];
        if 'A' <= c <= 'Z' {
            assert(((c as u32) + 32) as char as u32 == (c as u32) + 32);
        }
    }
}

/// ` — did you mean `x`?` for the closest candidate, or nothing.
pub fn did_you_mean(name: &str, candidates: &[&str]) -> (r: String)
    requires
        name.spec_bytes().len() < usize::MAX,
        forall|i: int| 0 <= i < candidates@.len() ==> (#[trigger] candidates@[i]).spec_bytes().len() < usize::MAX,
    ensures
        !has_near(name@, views(candidates@)) ==> r@.len() == 0,
        has_near(name@, views(candidates@)) ==> exists|w: Seq<char>| is_closest(name@, views(candidates@), w)
            && r@ == " — did you mean `"@ + w + "`?"@,
{
    match closest(name, candidates) {
        Some(c) => {
            let mut out = String::new();
            push_str(&mut out, " — did you mean `");
            push_str(&mut out, c);
            push_str(&mut out, "`?");
            proof {
                assert(out@ =~= " — did you mean `"@ + c@ + "`?"@);
            }
            out
        },
        None => String::new(),
    }
}

/// The record that answers to `name` among the first `n`: the last one
/// declared under it, as a later declaration stands in for an earlier one.
pub open spec fn def_upto(recs: Seq<&RecordDef>, name: Seq<char>, n: int) -> Option<int>
    decreases n,
{
    if n <= 0 {
        None
    } else if recs[n - 1].name@ == name {
        Some(n - 1)
    } else {
        def_upto(recs, name, n - 1)
    }
}

pub open spec fn def_of(recs: Seq<&RecordDef>, name: Seq<char>) -> Option<int> {
    def_upto(recs, name, recs.len() as int)
}

proof fn lemma_def_upto(recs: Seq<&RecordDef>, name: Seq<char>, n: int)
    requires
        0 <= n <= recs.len(),
    ensures
        match def_upto(recs, name, n) {
            Some(d) => 0 <= d < n && recs[d].name@ == name
                && forall|j: int| d < j < n ==> recs[j].name@ != name,
            None => forall|j: int| 0 <= j < n ==> recs[j].name@ != name,
        },
    decreases n,
{
    if n > 0 {
        lemma_def_upto(recs, name, n - 1);
    }
}

/// `t` is the record type named `n`.
pub open spec fn names_record(t: Ty, n: Seq<char>) -> bool {
    match t {
        Ty::Record(x) => x@ == n,
        _ => false,
    }
}

/// Record `d` holds a field of the record type `n`.
pub open spec fn holds(recs: Seq<&RecordDef>, d: int, n: Seq<char>) -> bool {
    exists|f: int| 0 <= f < recs[d].fields@.len()
        && names_record((#[trigger] recs[d].fields@[f]).1, n)
}

/// The record named `a` holds a field of the record type `b`.
pub open spec fn edge(recs: Seq<&RecordDef>, a: Seq<char>, b: Seq<char>) -> bool {
    match def_of(recs, a) {
        Some(d) => holds(recs, d, b),
        None => false,
    }
}

/// A chain of record names, each holding a field of the next one's type.
pub open spec fn chain(recs: Seq<&RecordDef>, w: Seq<Seq<char>>) -> bool {
    &&& w.len() >= 2
    &&& forall|i: int| 0 <= i < w.len() - 1 ==> edge(recs, #[trigger] w[i], w[i + 1])
}

/// The record named `name` contains itself, through one field or a chain.
pub open spec fn contains_itself(recs: Seq<&RecordDef>, name: Seq<char>) -> bool {
    exists|w: Seq<Seq<char>>| #[trigger] chain(recs, w) && w[0] == name && w.last() == name
}

/// A chain from `a` to `b`.
pub open spec fn reaches(recs: Seq<&RecordDef>, a: Seq<char>, b: Seq<char>) -> bool {
    exists|w: Seq<Seq<char>>| #[trigger] chain(recs, w) && w[0] == a && w.last() == b
}

/// The number of entries not yet set.
pub open spec fn unset(v: Seq<bool>) -> nat
    decreases v.len(),
{
    if v.len() == 0 {
        0
    } else {
        unset(v.drop_last()) + if v.last() { 0nat } else { 1nat }
    }
}

proof fn lemma_unset_mark(v: Seq<bool>, e: int)
    requires
        0 <= e < v.len(),
        !v[e],
    ensures
        unset(v.update(e, true)) + 1 == unset(v),
    decreases v.len(),
{
    if e < v.len() - 1 {
        assert(v.update(e, true).drop_last() =~= v.drop_last().update(e, true));
        lemma_unset_mark(v.drop_last(), e);
    } else {
        assert(v.update(e, true).drop_last() =~= v.drop_last());
    }
}

fn def_index(records: &[&RecordDef], name: &str) -> (r: Option<usize>)
    ensures
        match r {
            Some(d) => def_of(records@, name@) == Some(d as int),
            None => def_of(records@, name@) is None,
        },
{
    let mut i = records.len();
    while i > 0
        invariant
            i <= records@.len(),
            def_of(records@, name@) == def_upto(records@, name@, i as int),
        decreases i,
    {
        if crate::text::str_eq(records[i - 1].name.as_str(), name) {
            return Some(i - 1);
        }
        i = i - 1;
    }
    None
}

/// A field of record type that names neither `start` nor a record not yet
/// reached.
pub open spec fn field_done(recs: Seq<&RecordDef>, start: Seq<char>, visited: Seq<bool>, t: Ty) -> bool {
    match t {
        Ty::Record(x) => x@ != start && match def_of(recs, x@) {
            Some(e) => visited[e],
            None => true,
        },
        _ => true,
    }
}

/// Every field of record `d` is done.
pub open spec fn closed_at(recs: Seq<&RecordDef>, start: Seq<char>, visited: Seq<bool>, d: int) -> bool {
    forall|f: int| 0 <= f < recs[d].fields@.len()
        ==> field_done(recs, start, visited, (#[trigger] recs[d].fields@[f]).1)
}

/// A record with no declaration starts no chain.
proof fn lemma_no_def_no_chain(recs: Seq<&RecordDef>, a: Seq<char>)
    requires
        def_of(recs, a) is None,
    ensures
        !contains_itself(recs, a),
{
    assert forall|w: Seq<Seq<char>>| #[trigger] chain(recs, w) && w[0] == a implies false by {
        assert(edge(recs, w[0], w[1]));
    }
}

/// A chain followed by one more field is a longer chain.
proof fn lemma_chain_extend(recs: Seq<&RecordDef>, w: Seq<Seq<char>>, b: Seq<char>)
    requires
        chain(recs, w),
        edge(recs, w.last(), b),
    ensures
        chain(recs, w.push(b)),
        w.push(b)[0] == w[0],
        w.push(b).last() == b,
{
    let v = w.push(b);
    assert forall|i: int| 0 <= i < v.len() - 1 implies edge(recs, #[trigger] v[i], v[i + 1]) by {
        if i < w.len() - 1 {
            assert(v[i] == w[i] && v[i + 1] == w[i + 1]);
        }
    }
}

/// A single field is a chain of two names.
proof fn lemma_chain_one(recs: Seq<&RecordDef>, a: Seq<char>, b: Seq<char>)
    requires
        edge(recs, a, b),
    ensures
        chain(recs, seq![a, b]),
{
    let v = seq![a, b];
    assert forall|i: int| 0 <= i < v.len() - 1 implies edge(recs, #[trigger] v[i], v[i + 1]) by {
        assert(i == 0);
    }
}

/// A field done stays done as more records are reached.
proof fn lemma_done_grow(recs: Seq<&RecordDef>, start: Seq<char>, v: Seq<bool>, e: int, t: Ty)
    requires
        0 <= e < v.len(),
        v.len() == recs.len(),
        field_done(recs, start, v, t),
    ensures
        field_done(recs, start, v.update(e, true), t),
{
    if let Ty::Record(x) = t {
        lemma_def_upto(recs, x@, recs.len() as int);
    }
}

proof fn lemma_closed_grow(recs: Seq<&RecordDef>, start: Seq<char>, v: Seq<bool>, e: int, d: int)
    requires
        0 <= e < v.len(),
        v.len() == recs.len(),
        0 <= d < recs.len(),
        closed_at(recs, start, v, d),
    ensures
        closed_at(recs, start, v.update(e, true), d),
{
    assert forall|f: int| 0 <= f < recs[d].fields@.len() implies
        field_done(recs, start, v.update(e, true), (#[trigger] recs[d].fields@[f]).1) by {
        lemma_done_grow(recs, start, v, e, recs[d].fields@[f].1);
    }
}

/// When every reached record is done, a chain from `start` never comes back
/// to it: each name after the first is not `start`, and its record, if it
/// has one, has been reached.
proof fn lemma_closed_chain(recs: Seq<&RecordDef>, start: Seq<char>, visited: Seq<bool>, d0: int, w: Seq<Seq<char>>, i: int)
    requires
        visited.len() == recs.len(),
        def_of(recs, start) == Some(d0),
        0 <= d0 < recs.len(),
        visited[d0],
        forall|d: int| 0 <= d < recs.len() && #[trigger] visited[d] ==> closed_at(recs, start, visited, d),
        chain(recs, w),
        w[0] == start,
        1 <= i < w.len(),
    ensures
        w[i] != start,
        def_of(recs, w[i]) matches Some(e) ==> visited[e],
    decreases i,
{
    lemma_def_upto(recs, w[i], recs.len() as int);
    lemma_def_upto(recs, w[i - 1], recs.len() as int);
    assert(edge(recs, w[i - 1], w[i]));
    let e = if i == 1 { d0 } else {
        lemma_closed_chain(recs, start, visited, d0, w, i - 1);
        def_of(recs, w[i - 1])->0
    };
    assert(def_of(recs, w[i - 1]) == Some(e));
    assert(holds(recs, e, w[i]));
    let f = choose|f: int| 0 <= f < recs[e].fields@.len() && names_record((#[trigger] recs[e].fields@[f]).1, w[i]);
    assert(closed_at(recs, start, visited, e));
    assert(field_done(recs, start, visited, recs[e].fields@[f].1));
}

/// Whether the record named `start` contains itself: a walk from it along
/// record-typed fields, each record expanded once, that stops when a field
/// names `start` again.
fn reaches_itself(records: &[&RecordDef], start: &str) -> (r: bool)
    ensures
        r == contains_itself(records@, start@),
{
    let ghost recs = records@;
    let d0 = match def_index(records, start) {
        Some(d) => d,
        None => {
            proof {
                lemma_no_def_no_chain(recs, start@);
            }
            return false;
        },
    };
    proof {
        lemma_def_upto(recs, start@, recs.len() as int);
    }
    let mut visited: Vec<bool> = Vec::new();
    let mut i: usize = 0;
    while i < records.len()
        invariant
            i <= records@.len(),
            visited@.len() == i,
            forall|k: int| 0 <= k < i ==> !#[trigger] visited@[k],
        decreases records@.len() - i,
    {
        visited.push(false);
        i = i + 1;
    }
    proof {
        lemma_unset_mark(visited@, d0 as int);
    }
    visited.set(d0, true);
    let mut stack: Vec<usize> = vec![d0];
    let count = records.len();
    while stack.len() > 0
        invariant
            recs == records@,
            recs.len() == count,
            visited@.len() == recs.len(),
            def_of(recs, start@) == Some(d0 as int),
            d0 < recs.len(),
            visited@[d0 as int],
            forall|j: int| 0 <= j < stack@.len() ==> #[trigger] stack@[j] < recs.len() && visited@[stack@[j] as int],
            forall|d: int| 0 <= d < recs.len() && #[trigger] visited@[d] ==> def_of(recs, recs[d].name@) == Some(d),
            forall|d: int| 0 <= d < recs.len() && #[trigger] visited@[d] && d != d0
                ==> reaches(recs, start@, recs[d].name@),
            forall|d: int| 0 <= d < recs.len() && #[trigger] visited@[d] && !stack@.contains(d as usize)
                ==> closed_at(recs, start@, visited@, d),
        decreases unset(visited@) + stack@.len(),
    {
        let ghost before_pop = stack@;
        let d = stack.pop().unwrap();
        assert(before_pop[before_pop.len() - 1] == d);
        let ghost budget = unset(visited@) + stack@.len();
        proof {
            assert(stack@ =~= before_pop.drop_last());
            assert forall|e: int| 0 <= e < recs.len() && #[trigger] visited@[e] && !stack@.contains(e as usize) && e != d
                implies closed_at(recs, start@, visited@, e) by {
                if before_pop.contains(e as usize) {
                    let j = choose|j: int| 0 <= j < before_pop.len() && before_pop[j] == e as usize;
                    if j < before_pop.len() - 1 {
                        assert(stack@[j] == e as usize);
                        assert(stack@.contains(e as usize));
                    } else {
                        assert(e as usize == d);
                        assert(e == d as int);
                    }
                }
                assert(!before_pop.contains(e as usize));
                assert(closed_at(recs, start@, visited@, e));
            }
        }
        let rec = records[d];
        let mut f: usize = 0;
        while f < rec.fields.len()
            invariant
                recs == records@,
                rec == recs[d as int],
                d < recs.len(),
                visited@.len() == recs.len(),
                visited@[d as int],
                def_of(recs, start@) == Some(d0 as int),
                d0 < recs.len(),
                visited@[d0 as int],
                f <= rec.fields@.len(),
                unset(visited@) + stack@.len() == budget,
                forall|j: int| 0 <= j < stack@.len() ==> #[trigger] stack@[j] < recs.len() && visited@[stack@[j] as int],
                forall|e: int| 0 <= e < recs.len() && #[trigger] visited@[e] ==> def_of(recs, recs[e].name@) == Some(e),
                forall|e: int| 0 <= e < recs.len() && #[trigger] visited@[e] && e != d0
                    ==> reaches(recs, start@, recs[e].name@),
                forall|e: int| 0 <= e < recs.len() && #[trigger] visited@[e] && !stack@.contains(e as usize) && e != d
                    ==> closed_at(recs, start@, visited@, e),
                forall|g: int| 0 <= g < f ==> field_done(recs, start@, visited@, (#[trigger] rec.fields@[g]).1),
            decreases rec.fields@.len() - f,
        {
            if let Ty::Record(next) = rec.fields[f].1 {
                let ghost fi = f as int;
                if crate::text::str_eq(next, start) {
                    proof {
                        assert(holds(recs, d as int, start@));
                        assert(edge(recs, recs[d as int].name@, start@));
                        if d == d0 {
                            lemma_chain_one(recs, start@, start@);
                            assert(chain(recs, seq![start@, start@]));
                        } else {
                            let w = choose|w: Seq<Seq<char>>| #[trigger] chain(recs, w) && w[0] == start@
                                && w.last() == recs[d as int].name@;
                            lemma_chain_extend(recs, w, start@);
                            assert(chain(recs, w.push(start@)));
                        }
                    }
                    return true;
                }
                let found = def_index(records, next);
                proof {
                    lemma_def_upto(recs, next@, recs.len() as int);
                }
                match found {
                    Some(e) => {
                        if !visited[e] {
                            proof {
                                lemma_unset_mark(visited@, e as int);
                                assert(holds(recs, d as int, next@));
                                assert(edge(recs, recs[d as int].name@, next@));
                                assert(recs[e as int].name@ == next@);
                                if d == d0 {
                                    lemma_chain_one(recs, start@, next@);
                                    assert(chain(recs, seq![start@, next@]));
                                } else {
                                    let w = choose|w: Seq<Seq<char>>| #[trigger] chain(recs, w) && w[0] == start@
                                        && w.last() == recs[d as int].name@;
                                    lemma_chain_extend(recs, w, next@);
                                    assert(chain(recs, w.push(next@)));
                                }
                                assert forall|e2: int| 0 <= e2 < recs.len() && visited@[e2] && !stack@.contains(e2 as usize) && e2 != d
                                    implies closed_at(recs, start@, visited@.update(e as int, true), e2) by {
                                    lemma_closed_grow(recs, start@, visited@, e as int, e2);
                                }
                                assert forall|g: int| 0 <= g < f implies
                                    field_done(recs, start@, visited@.update(e as int, true), (#[trigger] rec.fields@[g]).1) by {
                                    lemma_done_grow(recs, start@, visited@, e as int, rec.fields@[g].1);
                                }
                            }
                            visited.set(e, true);
                            let ghost old_stack = stack@;
                            stack.push(e);
                            proof {
                                assert(stack@[stack@.len() - 1] == e);
                                assert forall|e2: int| 0 <= e2 < recs.len() && #[trigger] visited@[e2]
                                    && !stack@.contains(e2 as usize) && e2 != d
                                    implies closed_at(recs, start@, visited@, e2) by {
                                    assert(stack@.contains(e));
                                    if old_stack.contains(e2 as usize) {
                                        let j = choose|j: int| 0 <= j < old_stack.len() && old_stack[j] == e2 as usize;
                                        assert(stack@[j] == e2 as usize);
                                    }
                                }
                            }
                        }
                    },
                    None => {},
                }
            }
            f = f + 1;
        }
        proof {
            assert(closed_at(recs, start@, visited@, d as int));
        }
    }
    proof {
        assert forall|w: Seq<Seq<char>>| #[trigger] chain(recs, w) && w[0] == start@ implies w.last() != start@ by {
            lemma_closed_chain(recs, start@, visited@, d0 as int, w, w.len() - 1);
        }
    }
    false
}

/// `record NAME contains itself — ...`: the diagnostic for a record that
/// could never be built.
pub open spec fn cycle_msg(name: Seq<char>) -> Seq<char> {
    "record `"@ + name + "` contains itself — every field is given a value when the record is made, so this one could never be built. A list of them (`"@
        + name + "[]`) can."@
}

/// The records, among the first `n`, that contain themselves, in order.
pub open spec fn self_containing(recs: Seq<&RecordDef>, n: int) -> Seq<int>
    decreases n,
{
    if n <= 0 {
        Seq::empty()
    } else {
        let rest = self_containing(recs, n - 1);
        if contains_itself(recs, recs[n - 1].name@) { rest.push(n - 1) } else { rest }
    }
}

/// A record that holds a field of its own type contains itself, and so do
/// two records that each hold a field of the other's type.
pub proof fn law_direct_and_mutual_records_contain_themselves(recs: Seq<&RecordDef>, a: Seq<char>, b: Seq<char>)
    ensures
        edge(recs, a, a) ==> contains_itself(recs, a),
        edge(recs, a, b) && edge(recs, b, a) ==> contains_itself(recs, a) && contains_itself(recs, b),
{
    if edge(recs, a, a) {
        let w = seq![a, a];
        assert(chain(recs, w)) by {
            assert(w[0] == a && w[1] == a);
        }
    }
    if edge(recs, a, b) && edge(recs, b, a) {
        let w = seq![a, b, a];
        assert(chain(recs, w)) by {
            assert(w[0] == a && w[1] == b && w[2] == a);
        }
        let v = seq![b, a, b];
        assert(chain(recs, v)) by {
            assert(v[0] == b && v[1] == a && v[2] == b);
        }
    }
}

/// The records diagnosed are exactly those that contain themselves, each
/// once, in declaration order.
pub proof fn law_diagnosed_records_are_the_self_containing(recs: Seq<&RecordDef>, n: int)
    requires
        0 <= n <= recs.len(),
    ensures
        forall|k: int| 0 <= k < n ==> (self_containing(recs, n).contains(k) <==> contains_itself(recs, #[trigger] recs[k].name@)),
        forall|x: int, y: int| 0 <= x < y < self_containing(recs, n).len()
            ==> #[trigger] self_containing(recs, n)[x] < #[trigger] self_containing(recs, n)[y],
        forall|x: int| 0 <= x < self_containing(recs, n).len() ==> 0 <= #[trigger] self_containing(recs, n)[x] < n,
    decreases n,
{
    if n > 0 {
        law_diagnosed_records_are_the_self_containing(recs, n - 1);
        let rest = self_containing(recs, n - 1);
        let all = self_containing(recs, n);
        assert forall|k: int| 0 <= k < n implies (all.contains(k) <==> contains_itself(recs, #[trigger] recs[k].name@)) by {
            if k < n - 1 {
                if all.contains(k) {
                    let x = choose|x: int| 0 <= x < all.len() && all[x] == k;
                    if x < rest.len() {
                        assert(rest[x] == k);
                    }
                }
                if rest.contains(k) {
                    let x = choose|x: int| 0 <= x < rest.len() && rest[x] == k;
                    assert(all[x] == k);
                }
            } else {
                if contains_itself(recs, recs[k].name@) {
                    assert(all[all.len() - 1] == k);
                } else {
                    if all.contains(k) {
                        let x = choose|x: int| 0 <= x < all.len() && all[x] == k;
                        assert(rest[x] == k);
                    }
                }
            }
        }
    }
}

/// A diagnostic for each record that contains itself, through one field or a
/// chain of them, in declaration order, on the record's line.
pub fn check_record_cycles(records: &[&RecordDef]) -> (r: Vec<ValidateError>)
    ensures
        r@.len() == self_containing(records@, records@.len() as int).len(),
        forall|k: int| 0 <= k < r@.len() ==> {
            let i = self_containing(records@, records@.len() as int)[k];
            &&& (#[trigger] r@[k]).msg@ == cycle_msg(records@[i].name@)
            &&& r@[k].line == records@[i].line
            &&& r@[k].col == 0
            &&& r@[k].end_col == 0
        },
{
    let mut out: Vec<ValidateError> = Vec::new();
    let mut i: usize = 0;
    while i < records.len()
        invariant
            i <= records@.len(),
            out@.len() == self_containing(records@, i as int).len(),
            forall|k: int| 0 <= k < out@.len() ==> {
                let j = self_containing(records@, i as int)[k];
                &&& (#[trigger] out@[k]).msg@ == cycle_msg(records@[j].name@)
                &&& out@[k].line == records@[j].line
                &&& out@[k].col == 0
                &&& out@[k].end_col == 0
            },
        decreases records@.len() - i,
    {
        let rec = records[i];
        if reaches_itself(records, rec.name.as_str()) {
            let name = rec.name.as_str();
            let mut msg = String::new();
            push_str(&mut msg, "record `");
            push_str(&mut msg, name);
            push_str(&mut msg, "` contains itself — every field is given a value when the record is made, so this one could never be built. A list of them (`");
            push_str(&mut msg, name);
            push_str(&mut msg, "[]`) can.");
            proof {
                assert(msg@ =~= cycle_msg(rec.name@));
            }
            let at = Span::line(rec.line);
            out.push(ValidateError { msg, line: at.line, col: at.col, end_col: at.end_col });
        }
        i = i + 1;
    }
    out
}

// --- control flow ------------------------------------------------------------

/// Every path through the block reaches a `return`: some statement of it
/// always returns.
pub open spec fn block_returns(b: Seq<Stmt>) -> bool
    decreases b,
{
    exists|i: int| 0 <= i < b.len() && stmt_returns(#[trigger] b[i])
}

/// A statement always returns: it is a `return`, or an `if` with an `else`
/// whose every branch always returns. A loop never counts: its condition may
/// be false the first time it is tested.
pub open spec fn stmt_returns(s: Stmt) -> bool
    decreases s,
{
    match s.kind {
        StmtKind::Return { .. } => true,
        StmtKind::If { arms, otherwise: Some(e) } => {
            &&& forall|j: int| 0 <= j < arms@.len() ==> block_returns((#[trigger] arms@[j]).1@)
            &&& block_returns(e@)
        },
        _ => false,
    }
}

/// Only a `return`, or an `if` with an `else`, always returns: a loop never
/// does, and an `if` with no `else` has a path that falls through.
pub proof fn law_only_returns_and_complete_ifs_return(s: Stmt)
    ensures
        stmt_returns(s) ==> s.kind is Return || (s.kind is If && s.kind->If_otherwise is Some),
{
}

/// An `if` with an `else` always returns exactly when every one of its
/// branches does, each arm as well as the `else`: a single arm that can fall
/// through, an empty one among them, lets the whole `if` fall through,
/// whatever the other branches do.
pub proof fn law_if_returns_only_when_every_branch_does(s: Stmt, arms: Vec<(Expr, Vec<Stmt>)>, e: Vec<Stmt>)
    requires
        s.kind == (StmtKind::If { arms: arms, otherwise: Some(e) }),
    ensures
        stmt_returns(s) <==> (forall|j: int| 0 <= j < arms@.len() ==> block_returns(#[trigger] arms@[j].1@))
            && block_returns(e@),
        forall|j: int| 0 <= j < arms@.len() && !block_returns(#[trigger] arms@[j].1@) ==> !stmt_returns(s),
        forall|j: int| 0 <= j < arms@.len() && (#[trigger] arms@[j]).1@.len() == 0 ==> !stmt_returns(s),
        !block_returns(e@) ==> !stmt_returns(s),
{
    let all_arms = forall|j: int| 0 <= j < arms@.len() ==> block_returns(#[trigger] arms@[j].1@);
    assert(s.kind is If);
    assert(s.kind->If_arms == arms);
    assert(s.kind->If_otherwise == Some(e));
    assert(stmt_returns(s) == ((forall|j: int| 0 <= j < arms@.len() ==> block_returns((#[trigger] arms@[j]).1@)) && block_returns(e@)));
    assert(stmt_returns(s) == (all_arms && block_returns(e@))) by {
        if all_arms {
            assert forall|j: int| 0 <= j < arms@.len() implies block_returns((#[trigger] arms@[j]).1@) by {
                assert(block_returns(arms@[j].1@));
            }
        }
    }
}

/// Whether every path through `body` reaches a `return`.
///
/// An `if` counts only when it has an `else` and every branch returns: a
/// missing `else` is exactly the path that falls through. A `while` never
/// counts.
pub fn always_returns(body: &Vec<Stmt>) -> (r: bool)
    ensures
        r == block_returns(body@),
    decreases body,
{
    let mut i: usize = 0;
    while i < body.len()
        invariant
            i <= body@.len(),
            forall|k: int| 0 <= k < i ==> !stmt_returns(#[trigger] body@[k]),
        decreases body@.len() - i,
    {
        if stmt_always_returns(&body[i]) {
            return true;
        }
        i = i + 1;
    }
    false
}

fn stmt_always_returns(s: &Stmt) -> (r: bool)
    ensures
        r == stmt_returns(*s),
    decreases s,
{
    match &s.kind {
        StmtKind::Return { .. } => true,
        StmtKind::If { arms, otherwise: Some(e) } => {
            let mut j: usize = 0;
            while j < arms.len()
                invariant
                    j <= arms@.len(),
                    s.kind is If && s.kind->If_arms == *arms,
                    forall|k: int| 0 <= k < j ==> block_returns((#[trigger] arms@[k]).1@),
                decreases arms@.len() - j,
            {
                proof {
                    assert(decreases_to!(s => arms[j as int].1));
                }
                if !always_returns(&arms[j].1) {
                    return false;
                }
                j = j + 1;
            }
            always_returns(e)
        },
        _ => false,
    }
}

/// The `break` and `continue` statements of a block that stand outside any
/// loop, in the order they are written; `in_loop` says whether the block
/// itself is a loop's body or inside one.
pub open spec fn stray_jumps(b: Seq<Stmt>, in_loop: bool) -> Seq<Stmt>
    decreases b,
{
    if b.len() == 0 {
        Seq::empty()
    } else {
        stray_jumps(b.subrange(0, b.len() - 1), in_loop) + stmt_stray_jumps(b[b.len() - 1], in_loop)
    }
}

pub open spec fn stmt_stray_jumps(s: Stmt, in_loop: bool) -> Seq<Stmt>
    decreases s,
{
    match s.kind {
        StmtKind::Break => if in_loop { Seq::empty() } else { seq![s] },
        StmtKind::Continue => if in_loop { Seq::empty() } else { seq![s] },
        StmtKind::While { body, .. } => stray_jumps(body@, true),
        StmtKind::For { body, .. } => stray_jumps(body@, true),
        StmtKind::If { arms, otherwise } => arms_stray_jumps(arms@, in_loop) + match otherwise {
            Some(b) => stray_jumps(b@, in_loop),
            None => Seq::empty(),
        },
        _ => Seq::empty(),
    }
}

pub open spec fn arms_stray_jumps(arms: Seq<(Expr, Vec<Stmt>)>, in_loop: bool) -> Seq<Stmt>
    decreases arms,
{
    if arms.len() == 0 {
        Seq::empty()
    } else {
        arms_stray_jumps(arms.subrange(0, arms.len() - 1), in_loop) + stray_jumps(arms[arms.len() - 1].1@, in_loop)
    }
}

/// Inside a loop no `break` or `continue` is stray: a block that is a loop's
/// body, or inside one, yields no diagnostic whatever it holds.
pub proof fn law_no_stray_jump_inside_a_loop(b: Seq<Stmt>)
    ensures
        stray_jumps(b, true) =~= Seq::<Stmt>::empty(),
    decreases b,
{
    if b.len() > 0 {
        law_no_stray_jump_inside_a_loop(b.subrange(0, b.len() - 1));
        lemma_stmt_no_stray_jump_inside_a_loop(b[b.len() - 1]);
    }
}

proof fn lemma_stmt_no_stray_jump_inside_a_loop(s: Stmt)
    ensures
        stmt_stray_jumps(s, true) =~= Seq::<Stmt>::empty(),
    decreases s,
{
    match s.kind {
        StmtKind::While { body, .. } => law_no_stray_jump_inside_a_loop(body@),
        StmtKind::For { body, .. } => law_no_stray_jump_inside_a_loop(body@),
        StmtKind::If { arms, otherwise } => {
            lemma_arms_no_stray_jump_inside_a_loop(arms@);
            match otherwise {
                Some(b) => law_no_stray_jump_inside_a_loop(b@),
                None => {},
            }
        },
        _ => {},
    }
}

proof fn lemma_arms_no_stray_jump_inside_a_loop(arms: Seq<(Expr, Vec<Stmt>)>)
    ensures
        arms_stray_jumps(arms, true) =~= Seq::<Stmt>::empty(),
    decreases arms,
{
    if arms.len() > 0 {
        lemma_arms_no_stray_jump_inside_a_loop(arms.subrange(0, arms.len() - 1));
        law_no_stray_jump_inside_a_loop(arms[arms.len() - 1].1@);
    }
}

/// Where arm `j`'s stray jumps stand among those of all the arms.
proof fn lemma_arm_jumps_at(arms: Seq<(Expr, Vec<Stmt>)>, in_loop: bool, j: int) -> (off: int)
    requires
        0 <= j < arms.len(),
    ensures
        0 <= off,
        off + stray_jumps(arms[j].1@, in_loop).len() <= arms_stray_jumps(arms, in_loop).len(),
        arms_stray_jumps(arms, in_loop).subrange(off, off + stray_jumps(arms[j].1@, in_loop).len())
            =~= stray_jumps(arms[j].1@, in_loop),
    decreases arms.len(),
{
    let front = arms.subrange(0, arms.len() - 1);
    if j == arms.len() - 1 {
        arms_stray_jumps(front, in_loop).len() as int
    } else {
        let off = lemma_arm_jumps_at(front, in_loop, j);
        assert(front[j] == arms[j]);
        let whole = arms_stray_jumps(arms, in_loop);
        let part = arms_stray_jumps(front, in_loop);
        assert(whole == part + stray_jumps(arms[arms.len() - 1].1@, in_loop));
        let n = stray_jumps(arms[j].1@, in_loop).len();
        assert(whole.subrange(off, off + n) =~= part.subrange(off, off + n));
        off
    }
}

/// Every arm of an `if` is checked, not only the first: the stray jumps of
/// each arm's block stand, together and in their order, among the stray
/// jumps of the `if`, so each of them gets its diagnostic.
pub proof fn law_every_arm_is_checked_for_stray_jumps(s: Stmt, in_loop: bool, j: int)
    requires
        s.kind is If,
        0 <= j < s.kind->If_arms@.len(),
    ensures
        exists|off: int| 0 <= off
            && off + stray_jumps(s.kind->If_arms@[j].1@, in_loop).len() <= stmt_stray_jumps(s, in_loop).len()
            && #[trigger] stmt_stray_jumps(s, in_loop).subrange(off, off + stray_jumps(s.kind->If_arms@[j].1@, in_loop).len())
                == stray_jumps(s.kind->If_arms@[j].1@, in_loop),
{
    let arms = s.kind->If_arms@;
    let off = lemma_arm_jumps_at(arms, in_loop, j);
    let n = stray_jumps(arms[j].1@, in_loop).len();
    let all = stmt_stray_jumps(s, in_loop);
    let a = arms_stray_jumps(arms, in_loop);
    assert(all.subrange(0, a.len() as int) =~= a);
    assert(all.subrange(off, off + n) =~= a.subrange(off, off + n));
}

/// The diagnostic for a `break` or `continue` outside a loop in `sub`.
pub open spec fn jump_msg(sub: Seq<char>, is_break: bool) -> Seq<char> {
    "in `"@ + sub + "`: `"@ + (if is_break { "break"@ } else { "continue"@ })
        + "` is only meaningful inside a `while` or `for`"@
}

/// `e` reports the stray jump `s` in `sub`, on the statement's header.
pub open spec fn reports_jump(e: ValidateError, sub: Seq<char>, s: Stmt) -> bool {
    &&& e.msg@ == jump_msg(sub, s.kind is Break)
    &&& e.line == s.span.line
    &&& e.col == s.span.col
    &&& e.end_col == s.span.end_col
}

/// `out` grew from `before` by one report for each of `jumps`, in order.
pub open spec fn appended_reports(out: Seq<ValidateError>, before: Seq<ValidateError>, sub: Seq<char>, jumps: Seq<Stmt>) -> bool {
    &&& out.len() == before.len() + jumps.len()
    &&& forall|k: int| 0 <= k < before.len() ==> out[k] == before[k]
    &&& forall|k: int| 0 <= k < jumps.len() ==> reports_jump(#[trigger] out[before.len() + k], sub, jumps[k])
}

proof fn lemma_appended_chain(a: Seq<ValidateError>, b: Seq<ValidateError>, c: Seq<ValidateError>, sub: Seq<char>, x: Seq<Stmt>, y: Seq<Stmt>)
    requires
        appended_reports(b, a, sub, x),
        appended_reports(c, b, sub, y),
    ensures
        appended_reports(c, a, sub, x + y),
{
    assert forall|k: int| 0 <= k < (x + y).len() implies reports_jump(#[trigger] c[a.len() + k], sub, (x + y)[k]) by {
        if k < x.len() {
            assert(c[a.len() + k] == b[a.len() + k]);
        } else {
            assert(c[a.len() + k] == c[b.len() + (k - x.len())]);
        }
    }
}

/// A diagnostic for each `break` and `continue` of `body` that stands outside
/// any loop, in the order they are written, placed on the statement. `in_loop`
/// says whether `body` is already inside a loop.
pub fn check_loop_control(body: &Vec<Stmt>, in_loop: bool, sub: &str) -> (r: Vec<ValidateError>)
    ensures
        r@.len() == stray_jumps(body@, in_loop).len(),
        forall|k: int| 0 <= k < r@.len() ==> reports_jump(#[trigger] r@[k], sub@, stray_jumps(body@, in_loop)[k]),
{
    let mut out: Vec<ValidateError> = Vec::new();
    report_stray_jumps(body, in_loop, sub, &mut out);
    proof {
        assert forall|k: int| 0 <= k < out@.len() implies reports_jump(#[trigger] out@[k], sub@, stray_jumps(body@, in_loop)[k]) by {
            assert(out@[0 + k] == out@[k]);
        }
    }
    out
}

fn report_stray_jumps(body: &Vec<Stmt>, in_loop: bool, sub: &str, out: &mut Vec<ValidateError>)
    ensures
        appended_reports(final(out)@, old(out)@, sub@, stray_jumps(body@, in_loop)),
    decreases body,
{
    let ghost start = out@;
    let mut i: usize = 0;
    proof {
        assert(body@.subrange(0, 0) =~= Seq::<Stmt>::empty());
    }
    while i < body.len()
        invariant
            i <= body@.len(),
            appended_reports(out@, start, sub@, stray_jumps(body@.subrange(0, i as int), in_loop)),
        decreases body@.len() - i,
    {
        let ghost mid = out@;
        report_stmt_stray_jumps(&body[i], in_loop, sub, out);
        proof {
            let pre = body@.subrange(0, i + 1);
            assert(pre.subrange(0, pre.len() - 1) =~= body@.subrange(0, i as int));
            assert(pre[pre.len() - 1] == body@[i as int]);
            lemma_appended_chain(start, mid, out@, sub@, stray_jumps(body@.subrange(0, i as int), in_loop),
                stmt_stray_jumps(body@[i as int], in_loop));
        }
        i = i + 1;
    }
    proof {
        assert(body@.subrange(0, body@.len() as int) =~= body@);
    }
}

fn report_stmt_stray_jumps(s: &Stmt, in_loop: bool, sub: &str, out: &mut Vec<ValidateError>)
    ensures
        appended_reports(final(out)@, old(out)@, sub@, stmt_stray_jumps(*s, in_loop)),
    decreases s,
{
    match &s.kind {
        StmtKind::Break | StmtKind::Continue => {
            if !in_loop {
                let ghost is_break = s.kind is Break;
                let mut msg = String::new();
                push_str(&mut msg, "in `");
                push_str(&mut msg, sub);
                push_str(&mut msg, "`: `");
                push_str(&mut msg, if matches!(s.kind, StmtKind::Break) { "break" } else { "continue" });
                push_str(&mut msg, "` is only meaningful inside a `while` or `for`");
                proof {
                    assert(msg@ =~= jump_msg(sub@, is_break));
                }
                out.push(ValidateError { msg, line: s.span.line, col: s.span.col, end_col: s.span.end_col });
                proof {
                    assert(out@[old(out)@.len() as int + 0] == out@.last());
                }
            }
        },
        StmtKind::While { body, .. } => {
            report_stray_jumps(body, true, sub, out);
        },
        StmtKind::For { body, .. } => {
            report_stray_jumps(body, true, sub, out);
        },
        StmtKind::If { arms, otherwise } => {
            let ghost start = out@;
            let mut j: usize = 0;
            proof {
                assert(arms@.subrange(0, 0) =~= Seq::<(Expr, Vec<Stmt>)>::empty());
            }
            while j < arms.len()
                invariant
                    j <= arms@.len(),
                    s.kind is If && s.kind->If_arms == *arms,
                    appended_reports(out@, start, sub@, arms_stray_jumps(arms@.subrange(0, j as int), in_loop)),
                decreases arms@.len() - j,
            {
                proof {
                    assert(decreases_to!(s => arms[j as int].1));
                }
                let ghost mid = out@;
                report_stray_jumps(&arms[j].1, in_loop, sub, out);
                proof {
                    let pre = arms@.subrange(0, j + 1);
                    assert(pre.subrange(0, pre.len() - 1) =~= arms@.subrange(0, j as int));
                    assert(pre[pre.len() - 1] == arms@[j as int]);
                    lemma_appended_chain(start, mid, out@, sub@, arms_stray_jumps(arms@.subrange(0, j as int), in_loop),
                        stray_jumps(arms@[j as int].1@, in_loop));
                }
                j = j + 1;
            }
            proof {
                assert(arms@.subrange(0, arms@.len() as int) =~= arms@);
            }
            match otherwise {
                Some(b) => {
                    let ghost mid = out@;
                    report_stray_jumps(b, in_loop, sub, out);
                    proof {
                        lemma_appended_chain(start, mid, out@, sub@, arms_stray_jumps(arms@, in_loop), stray_jumps(b@, in_loop));
                    }
                },
                None => {
                    proof {
                        assert(arms_stray_jumps(arms@, in_loop) + Seq::<Stmt>::empty() =~= arms_stray_jumps(arms@, in_loop));
                    }
                },
            }
        },
        _ => {},
    }
}

// --- module variable initializers -----------------------------------------

/// What a module variable's initializer may not do, first in reading order:
/// read a module variable (or any other variable), read a component property,
/// or call a subroutine. Literals and command calls are fine.
pub open spec fn initializer_error(e: Expr, globals: Seq<(String, Ty)>, subs: Seq<(String, crate::types::Signature)>) -> Option<Seq<char>>
    decreases e,
{
    match e {
        Expr::Var(name) => if has_key(globals, name@) {
            Some("cannot read module variable `"@ + name@
                + "` here; module variable initializers may use literals and command calls only"@)
        } else {
            Some("unknown variable `"@ + name@ + "`"@)
        },
        Expr::Bin(_, l, r) => first_of(initializer_error(*l, globals, subs), initializer_error(*r, globals, subs)),
        Expr::Neg(x) => initializer_error(*x, globals, subs),
        Expr::Not(x) => initializer_error(*x, globals, subs),
        Expr::Cmp(_, l, r) => first_of(initializer_error(*l, globals, subs), initializer_error(*r, globals, subs)),
        Expr::Logical(_, l, r) => first_of(initializer_error(*l, globals, subs), initializer_error(*r, globals, subs)),
        Expr::Call { cmd, args } => if has_key(subs, cmd@) {
            Some("cannot call subroutine `"@ + cmd@
                + "` here; module variable initializers may use literals and command calls only"@)
        } else {
            initializers_error(args@, globals, subs)
        },
        Expr::ArrayLit(items) => initializers_error(items@, globals, subs),
        Expr::RecordLit { fields, .. } => field_initializers_error(fields@, globals, subs),
        Expr::DictLit(pairs) => pair_initializers_error(pairs@, globals, subs),
        Expr::Field { base, .. } => initializer_error(*base, globals, subs),
        Expr::Index { base, index } => first_of(initializer_error(*base, globals, subs), initializer_error(*index, globals, subs)),
        Expr::GetProperty { .. } => Some("cannot read a component property before the form exists"@),
        _ => None,
    }
}

/// The first argument that is in error decides the error of the list.
proof fn lemma_first_error_decides(es: Seq<Expr>, globals: Seq<(String, Ty)>, subs: Seq<(String, crate::types::Signature)>, k: int)
    requires
        0 <= k < es.len(),
        initializer_error(es[k], globals, subs) is Some,
        forall|i: int| 0 <= i < k ==> initializer_error(#[trigger] es[i], globals, subs) is None,
    ensures
        initializers_error(es, globals, subs) == initializer_error(es[k], globals, subs),
    decreases k,
{
    if k > 0 {
        let rest = es.subrange(1, es.len() as int);
        assert forall|i: int| 0 <= i < k - 1 implies initializer_error(#[trigger] rest[i], globals, subs) is None by {
            assert(rest[i] == es[i + 1]);
        }
        lemma_first_error_decides(rest, globals, subs, k - 1);
        assert(rest[k - 1] == es[k]);
    }
}

/// A list none of whose items is in error is not in error.
proof fn lemma_no_error(es: Seq<Expr>, globals: Seq<(String, Ty)>, subs: Seq<(String, crate::types::Signature)>)
    requires
        forall|i: int| 0 <= i < es.len() ==> initializer_error(#[trigger] es[i], globals, subs) is None,
    ensures
        initializers_error(es, globals, subs) is None,
    decreases es.len(),
{
    if es.len() > 0 {
        let rest = es.subrange(1, es.len() as int);
        assert forall|i: int| 0 <= i < rest.len() implies initializer_error(#[trigger] rest[i], globals, subs) is None by {
            assert(rest[i] == es[i + 1]);
        }
        lemma_no_error(rest, globals, subs);
    }
}

/// A command call is checked through its arguments: where the command is no
/// subroutine, the call is in error exactly when one of its arguments is, and
/// then with the error of the first such argument; and an argument that reads
/// a module variable is always such an error.
pub proof fn law_command_call_is_checked_through_its_arguments(
    cmd: String,
    args: Vec<Expr>,
    globals: Seq<(String, Ty)>,
    subs: Seq<(String, crate::types::Signature)>,
)
    requires
        !has_key(subs, cmd@),
    ensures
        forall|k: int| 0 <= k < args@.len() && initializer_error(#[trigger] args@[k], globals, subs) is Some
            && (forall|i: int| 0 <= i < k ==> initializer_error(#[trigger] args@[i], globals, subs) is None)
            ==> initializer_error(Expr::Call { cmd: cmd, args: args }, globals, subs)
                == initializer_error(args@[k], globals, subs),
        (forall|i: int| 0 <= i < args@.len() ==> initializer_error(#[trigger] args@[i], globals, subs) is None)
            ==> initializer_error(Expr::Call { cmd: cmd, args: args }, globals, subs) is None,
        forall|k: int| 0 <= k < args@.len() && (#[trigger] args@[k]) is Var && has_key(globals, args@[k]->Var_0@)
            ==> initializer_error(Expr::Call { cmd: cmd, args: args }, globals, subs) is Some,
{
    assert forall|k: int| 0 <= k < args@.len() && initializer_error(#[trigger] args@[k], globals, subs) is Some
        && (forall|i: int| 0 <= i < k ==> initializer_error(#[trigger] args@[i], globals, subs) is None)
        implies initializer_error(Expr::Call { cmd: cmd, args: args }, globals, subs)
            == initializer_error(args@[k], globals, subs) by {
        lemma_first_error_decides(args@, globals, subs, k);
    }
    if forall|i: int| 0 <= i < args@.len() ==> initializer_error(#[trigger] args@[i], globals, subs) is None {
        lemma_no_error(args@, globals, subs);
    }
    assert forall|k: int| 0 <= k < args@.len() && (#[trigger] args@[k]) is Var && has_key(globals, args@[k]->Var_0@)
        implies initializer_error(Expr::Call { cmd: cmd, args: args }, globals, subs) is Some by {
        if initializers_error(args@, globals, subs) is None {
            let first = choose|m: int| 0 <= m < args@.len() && initializer_error(#[trigger] args@[m], globals, subs) is Some
                && (forall|i: int| 0 <= i < m ==> initializer_error(#[trigger] args@[i], globals, subs) is None);
            lemma_first_error_exists(args@, globals, subs, k);
            lemma_first_error_decides(args@, globals, subs, first);
        }
    }
}

/// Where some item is in error, there is a first one.
proof fn lemma_first_error_exists(es: Seq<Expr>, globals: Seq<(String, Ty)>, subs: Seq<(String, crate::types::Signature)>, k: int)
    requires
        0 <= k < es.len(),
        initializer_error(es[k], globals, subs) is Some,
    ensures
        exists|m: int| 0 <= m < es.len() && initializer_error(#[trigger] es[m], globals, subs) is Some
            && (forall|i: int| 0 <= i < m ==> initializer_error(#[trigger] es[i], globals, subs) is None),
    decreases k,
{
    if exists|i: int| 0 <= i < k && initializer_error(#[trigger] es[i], globals, subs) is Some {
        let i = choose|i: int| 0 <= i < k && initializer_error(#[trigger] es[i], globals, subs) is Some;
        lemma_first_error_exists(es, globals, subs, i);
    }
}

/// The first of two outcomes that is an error.
pub open spec fn first_of(a: Option<Seq<char>>, b: Option<Seq<char>>) -> Option<Seq<char>> {
    if a is Some { a } else { b }
}

pub open spec fn initializers_error(es: Seq<Expr>, globals: Seq<(String, Ty)>, subs: Seq<(String, crate::types::Signature)>) -> Option<Seq<char>>
    decreases es,
{
    if es.len() == 0 {
        None
    } else {
        first_of(initializer_error(es[0], globals, subs), initializers_error(es.subrange(1, es.len() as int), globals, subs))
    }
}

pub open spec fn field_initializers_error(fs: Seq<(String, Expr)>, globals: Seq<(String, Ty)>, subs: Seq<(String, crate::types::Signature)>) -> Option<Seq<char>>
    decreases fs,
{
    if fs.len() == 0 {
        None
    } else {
        first_of(initializer_error(fs[0].1, globals, subs), field_initializers_error(fs.subrange(1, fs.len() as int), globals, subs))
    }
}

pub open spec fn pair_initializers_error(ps: Seq<(Expr, Expr)>, globals: Seq<(String, Ty)>, subs: Seq<(String, crate::types::Signature)>) -> Option<Seq<char>>
    decreases ps,
{
    if ps.len() == 0 {
        None
    } else {
        first_of(
            first_of(initializer_error(ps[0].0, globals, subs), initializer_error(ps[0].1, globals, subs)),
            pair_initializers_error(ps.subrange(1, ps.len() as int), globals, subs),
        )
    }
}

/// Whether a module variable of that name is declared.
fn is_global(globals: &[(String, Ty)], name: &str) -> (r: bool)
    ensures
        r == has_key(globals@, name@),
{
    let mut i: usize = 0;
    while i < globals.len()
        invariant
            i <= globals@.len(),
            forall|k: int| 0 <= k < i ==> #[trigger] globals@[k].0@ != name@,
        decreases globals@.len() - i,
    {
        if crate::text::str_eq(globals[i].0.as_str(), name) {
            return true;
        }
        i = i + 1;
    }
    false
}

/// A module variable's initializer may call commands but must not read
/// another module variable, read a component property, or call a
/// subroutine (whose body may read module variables). `globals` are the
/// module variables, by name; `Err` carries the first problem in reading
/// order.
pub fn check_initializer(e: &Expr, globals: &[(String, Ty)], reg: &Registry) -> (r: Result<(), String>)
    ensures
        match (r, initializer_error(*e, globals@, reg.sub_table())) {
            (Ok(()), None) => true,
            (Err(m), Some(s)) => m@ == s,
            _ => false,
        },
    decreases e,
{
    match e {
        Expr::Var(name) => {
            let mut msg = String::new();
            if is_global(globals, name.as_str()) {
                push_str(&mut msg, "cannot read module variable `");
                push_str(&mut msg, name.as_str());
                push_str(&mut msg, "` here; module variable initializers may use literals and command calls only");
            } else {
                push_str(&mut msg, "unknown variable `");
                push_str(&mut msg, name.as_str());
                push_str(&mut msg, "`");
            }
            Err(msg)
        },
        Expr::Bin(_, l, r) | Expr::Cmp(_, l, r) | Expr::Logical(_, l, r) => {
            match check_initializer(l, globals, reg) {
                Err(m) => Err(m),
                Ok(()) => check_initializer(r, globals, reg),
            }
        },
        Expr::Neg(x) | Expr::Not(x) => check_initializer(x, globals, reg),
        Expr::Call { cmd, args } => {
            if reg.is_sub(cmd.as_str()) {
                let mut msg = String::new();
                push_str(&mut msg, "cannot call subroutine `");
                push_str(&mut msg, cmd.as_str());
                push_str(&mut msg, "` here; module variable initializers may use literals and command calls only");
                return Err(msg);
            }
            check_initializers(args, globals, reg)
        },
        Expr::ArrayLit(items) => check_initializers(items, globals, reg),
        Expr::RecordLit { fields, .. } => {
            let ghost fs = fields@;
            let mut i: usize = 0;
            proof {
                assert(fs.subrange(0, fs.len() as int) =~= fs);
            }
            while i < fields.len()
                invariant
                    i <= fs.len(),
                    fs == fields@,
                    e matches Expr::RecordLit { fields: f, .. } && f == *fields,
                    field_initializers_error(fs, globals@, reg.sub_table())
                        == field_initializers_error(fs.subrange(i as int, fs.len() as int), globals@, reg.sub_table()),
                decreases fs.len() - i,
            {
                proof {
                    assert(decreases_to!(e => fields[i as int].1));
                    let rest = fs.subrange(i as int, fs.len() as int);
                    assert(rest[0] == fs[i as int]);
                    assert(rest.subrange(1, rest.len() as int) =~= fs.subrange(i + 1, fs.len() as int));
                }
                match check_initializer(&fields[i].1, globals, reg) {
                    Err(m) => return Err(m),
                    Ok(()) => {},
                }
                i = i + 1;
            }
            Ok(())
        },
        Expr::DictLit(pairs) => {
            let ghost ps = pairs@;
            let mut i: usize = 0;
            proof {
                assert(ps.subrange(0, ps.len() as int) =~= ps);
            }
            while i < pairs.len()
                invariant
                    i <= ps.len(),
                    ps == pairs@,
                    e matches Expr::DictLit(p) && p == *pairs,
                    pair_initializers_error(ps, globals@, reg.sub_table())
                        == pair_initializers_error(ps.subrange(i as int, ps.len() as int), globals@, reg.sub_table()),
                decreases ps.len() - i,
            {
                proof {
                    assert(decreases_to!(e => pairs[i as int].0));
                    assert(decreases_to!(e => pairs[i as int].1));
                    let rest = ps.subrange(i as int, ps.len() as int);
                    assert(rest[0] == ps[i as int]);
                    assert(rest.subrange(1, rest.len() as int) =~= ps.subrange(i + 1, ps.len() as int));
                }
                match check_initializer(&pairs[i].0, globals, reg) {
                    Err(m) => return Err(m),
                    Ok(()) => {},
                }
                match check_initializer(&pairs[i].1, globals, reg) {
                    Err(m) => return Err(m),
                    Ok(()) => {},
                }
                i = i + 1;
            }
            Ok(())
        },
        Expr::Field { base, .. } => check_initializer(base, globals, reg),
        Expr::Index { base, index } => {
            match check_initializer(base, globals, reg) {
                Err(m) => Err(m),
                Ok(()) => check_initializer(index, globals, reg),
            }
        },
        Expr::GetProperty { .. } => {
            let mut msg = String::new();
            push_str(&mut msg, "cannot read a component property before the form exists");
            Err(msg)
        },
        _ => Ok(()),
    }
}

/// `check_initializer` on each expression in turn, stopping at the first
/// problem.
fn check_initializers(es: &Vec<Expr>, globals: &[(String, Ty)], reg: &Registry) -> (r: Result<(), String>)
    ensures
        match (r, initializers_error(es@, globals@, reg.sub_table())) {
            (Ok(()), None) => true,
            (Err(m), Some(s)) => m@ == s,
            _ => false,
        },
    decreases es,
{
    let mut i: usize = 0;
    proof {
        assert(es@.subrange(0, es@.len() as int) =~= es@);
    }
    while i < es.len()
        invariant
            i <= es@.len(),
            initializers_error(es@, globals@, reg.sub_table())
                == initializers_error(es@.subrange(i as int, es@.len() as int), globals@, reg.sub_table()),
        decreases es@.len() - i,
    {
        proof {
            let rest = es@.subrange(i as int, es@.len() as int);
            assert(rest[0] == es@[i as int]);
            assert(rest.subrange(1, rest.len() as int) =~= es@.subrange(i + 1, es@.len() as int));
        }
        match check_initializer(&es[i], globals, reg) {
            Err(m) => return Err(m),
            Ok(()) => {},
        }
        i = i + 1;
    }
    Ok(())
}

/// The record name in a type that no record declaration defines, if any: the
/// record a type names directly, or the one a list or dictionary of records
/// holds.
pub open spec fn spec_undeclared_type(t: Ty, recs: Seq<RecordDef>) -> Option<&'static str> {
    let named = match t {
        Ty::Record(n) => Some(n),
        Ty::Array(Elem::Record(n)) => Some(n),
        Ty::Dict(Elem::Record(n)) => Some(n),
        _ => None,
    };
    match named {
        Some(n) => if record_named(recs, n@) is Some { None } else { Some(n) },
        None => None,
    }
}

/// The record name in `ty` that no `record` declaration defines, if any.
///
/// The parser reads any unrecognised word in type position as a record name,
/// because a record may be declared after the subroutine that uses it; this
/// is where a word that names nothing is caught.
pub fn undeclared_type(ty: Ty, reg: &Registry) -> (r: Option<&'static str>)
    ensures
        r == spec_undeclared_type(ty, reg.record_table()),
{
    let name = match ty {
        Ty::Record(n) => n,
        Ty::Array(Elem::Record(n)) | Ty::Dict(Elem::Record(n)) => n,
        _ => return None,
    };
    if reg.record(name).is_some() {
        None
    } else {
        Some(name)
    }
}

} // verus!
