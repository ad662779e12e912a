//! The line table and the functions it belongs to: a built program's debug
//! information, indexed for the questions a debugger asks.

use vstd::prelude::*;
use vstd::utf8::{encode_utf8, encode_utf8_decode_utf8, encode_utf8_valid_utf8};
use crate::dwarf::{
    file_header, file_is_little, file_reads, file_row, file_symbol, file_unit_comp_dir, file_unit_has_lines,
    file_unit_name, file_unit_opens, file_unit_producer, is_little_endian, line_rows, load_dwarf, lossy_text,
    next_header, next_row, next_symbol, open_unit, parse_object, section_by_name, symbols, unit_comp_dir,
    unit_name, unit_producer, units, utf8_lossy, LineEntry, ObjectImage, SymbolEntry,
};
use crate::text::{lemma_ascii_prefix, slice_range, text_from_utf8};

verus! {

/// One row of the line table: an address, and where in the source it came
/// from.
#[derive(Debug, Clone, Copy, PartialEq, Eq, Structural)]
pub struct Row {
    pub address: u64,
    /// 1-based. A row with no line is dropped when the table is built, so this
    /// is never zero (but on an end marker).
    pub line: u32,
    /// 1-based; 0 when the compiler recorded none.
    pub column: u32,
    /// Whether this is a place a breakpoint may go: only the first row of a
    /// statement is a statement boundary.
    pub is_stmt: bool,
    /// Whether this row ends a sequence. It marks the address one past the
    /// last instruction, so it bounds the row before it and is never itself a
    /// stopping place.
    pub end_sequence: bool,
}

/// A function, as the linker knows it: a name, an address and a size.
#[derive(Debug, Clone, PartialEq, Eq)]
pub struct Subprogram {
    /// The name in the source, with the compiler's prefix removed.
    pub name: String,
    /// The linker symbol.
    pub symbol: String,
    pub low_pc: u64,
    pub size: u64,
}

/// The extent of a function is half-open: `[low_pc, low_pc + size)`.
pub open spec fn spec_contains(s: Subprogram, address: u64) -> bool {
    s.low_pc <= address < s.low_pc + s.size
}

impl Subprogram {
    /// Whether `address` lies in this function: from its first byte up to,
    /// and not including, the byte one past its last.
    pub fn contains(&self, address: u64) -> (r: bool)
        ensures
            r == spec_contains(*self, address),
    {
        address >= self.low_pc && address - self.low_pc < self.size
    }
}

/// The order of the line table: by address, and at one address a row that
/// starts a run before an end marker.
pub open spec fn row_le(a: Row, b: Row) -> bool {
    a.address < b.address || (a.address == b.address && (!a.end_sequence || b.end_sequence))
}

pub open spec fn rows_sorted(s: Seq<Row>) -> bool {
    forall|i: int, j: int| 0 <= i < j < s.len() ==> row_le(s[i], s[j])
}

pub open spec fn subs_sorted(s: Seq<Subprogram>) -> bool {
    forall|i: int, j: int| 0 <= i < j < s.len() ==> s[i].low_pc <= s[j].low_pc
}

/// Two rows sort as one: the same address, and both or neither an end
/// marker.
pub open spec fn same_row_key(a: Row, b: Row) -> bool {
    a.address == b.address && a.end_sequence == b.end_sequence
}

/// The rows that sort as `k` does, in the order they stand.
pub open spec fn rows_keyed(s: Seq<Row>, k: Row) -> Seq<Row> {
    s.filter(|r: Row| same_row_key(r, k))
}

/// The functions that start at `pc`, in the order they stand.
pub open spec fn subs_at(s: Seq<Subprogram>, pc: u64) -> Seq<Subprogram> {
    s.filter(|f: Subprogram| f.low_pc == pc)
}

/// What a filter keeps of a sequence with one more element put in at `p`.
proof fn lemma_filter_insert<A>(s: Seq<A>, p: int, x: A, pred: spec_fn(A) -> bool)
    requires
        0 <= p <= s.len(),
    ensures
        s.insert(p, x).filter(pred) == s.subrange(0, p).filter(pred) + (if pred(x) { seq![x] } else { Seq::empty() })
            + s.subrange(p, s.len() as int).filter(pred),
        s.filter(pred) == s.subrange(0, p).filter(pred) + s.subrange(p, s.len() as int).filter(pred),
{
    let front = s.subrange(0, p);
    let back = s.subrange(p, s.len() as int);
    assert(s.insert(p, x) =~= front + seq![x] + back);
    assert(s =~= front + back);
    Seq::filter_distributes_over_add(front + seq![x], back, pred);
    Seq::filter_distributes_over_add(front, seq![x], pred);
    Seq::filter_distributes_over_add(front, back, pred);
    reveal_with_fuel(Seq::filter, 2);
    assert(seq![x].drop_last() =~= Seq::<A>::empty());
    assert(seq![x].filter(pred) =~= (if pred(x) { seq![x] } else { Seq::empty() }));
}

/// A filter that keeps none of the elements keeps nothing.
proof fn lemma_filter_none<A>(s: Seq<A>, pred: spec_fn(A) -> bool)
    requires
        forall|i: int| 0 <= i < s.len() ==> !pred(#[trigger] s[i]),
    ensures
        s.filter(pred) =~= Seq::<A>::empty(),
    decreases s.len(),
{
    reveal(Seq::filter);
    if s.len() > 0 {
        lemma_filter_none(s.drop_last(), pred);
    }
}

/// A filter of a sequence with one more element at the end.
proof fn lemma_filter_push<A>(s: Seq<A>, x: A, pred: spec_fn(A) -> bool)
    ensures
        s.push(x).filter(pred) == (if pred(x) { s.filter(pred).push(x) } else { s.filter(pred) }),
{
    reveal(Seq::filter);
    assert(s.push(x).drop_last() =~= s);
}

/// `i` is the row that covers `address`: the last row, in table order, at
/// or before it.
pub open spec fn covering(s: Seq<Row>, address: u64, i: int) -> bool {
    &&& 0 <= i < s.len()
    &&& s[i].address <= address
    &&& forall|j: int| i < j < s.len() ==> s[j].address > address
}

/// A row a breakpoint may go on, for a request on `line`.
pub open spec fn stop_for(r: Row, line: u32) -> bool {
    r.is_stmt && !r.end_sequence && r.line >= line
}

/// `a` comes no later than `b` by (line, address).
pub open spec fn earlier(a: Row, b: Row) -> bool {
    a.line < b.line || (a.line == b.line && a.address <= b.address)
}

/// `i` is where a breakpoint on `line` goes: the first of the stopping places
/// with the smallest (line, address).
pub open spec fn breakpoint_at(s: Seq<Row>, line: u32, i: int) -> bool {
    &&& 0 <= i < s.len()
    &&& stop_for(s[i], line)
    &&& forall|j: int| 0 <= j < s.len() && stop_for(s[j], line) ==> earlier(s[i], s[j])
    &&& forall|j: int| 0 <= j < i && stop_for(s[j], line) ==> !earlier(s[j], s[i])
}

/// A statement boundary on exactly `line`.
pub open spec fn begins_line(r: Row, line: u32) -> bool {
    r.is_stmt && !r.end_sequence && r.line == line
}

/// The addresses the rows of `s` that begin `line` start at, in order.
pub open spec fn line_addresses(s: Seq<Row>, line: u32) -> Seq<u64>
    decreases s.len(),
{
    if s.len() == 0 {
        Seq::empty()
    } else {
        let rest = line_addresses(s.drop_last(), line);
        if begins_line(s.last(), line) { rest.push(s.last().address) } else { rest }
    }
}

/// `i` is the last function that starts at or before `address`.
pub open spec fn last_starting_by(s: Seq<Subprogram>, address: u64, i: int) -> bool {
    &&& 0 <= i < s.len()
    &&& s[i].low_pc <= address
    &&& forall|j: int| i < j < s.len() ==> s[j].low_pc > address
}

/// A built program's debug information: the source it was built from, its
/// line table in address order and its user functions in address order.
#[derive(Debug)]
pub struct Program {
    /// The source file the compile unit names, as the compiler recorded it.
    pub source: String,
    /// The directory it was recorded relative to.
    pub directory: String,
    /// Every row of the line table.
    pub rows: Vec<Row>,
    /// Every user function.
    pub subs: Vec<Subprogram>,
}

impl Program {
    /// The rows are in table order and the functions in address order.
    pub open spec fn wf(&self) -> bool {
        rows_sorted(self.rows@) && subs_sorted(self.subs@)
    }

    /// Index a table: the rows are put in table order and the functions in
    /// address order; nothing is added or dropped.
    pub fn new(source: String, directory: String, rows: Vec<Row>, subs: Vec<Subprogram>) -> (p: Program)
        ensures
            p.wf(),
            p.source == source,
            p.directory == directory,
            p.rows@.to_multiset() == rows@.to_multiset(),
            p.rows@.len() == rows@.len(),
            p.subs@.to_multiset() == subs@.to_multiset(),
            forall|k: Row| #[trigger] rows_keyed(p.rows@, k) == rows_keyed(rows@, k),
            forall|pc: u64| #[trigger] subs_at(p.subs@, pc) == subs_at(subs@, pc),
    {
        let rows = sort_rows(rows);
        let subs = sort_subs(subs);
        Program { source, directory, rows, subs }
    }

    /// Every row, in address order.
    pub fn rows(&self) -> (r: &[Row])
        ensures
            r@ == self.rows@,
    {
        self.rows.as_slice()
    }

    /// Every user function, in address order.
    pub fn subprograms(&self) -> (r: &[Subprogram])
        ensures
            r@ == self.subs@,
    {
        self.subs.as_slice()
    }

    /// Which source line an address is in.
    ///
    /// A row states where a run of instructions starts, so the row covering an
    /// address is the last one, in table order, at or before it; an address
    /// before the first row, or in the gap an end marker opens, belongs to no
    /// row.
    pub fn line_for(&self, address: u64) -> (r: Option<&Row>)
        requires
            self.wf(),
        ensures
            match r {
                Some(row) => exists|i: int| #[trigger] covering(self.rows@, address, i)
                    && !self.rows@[i].end_sequence && *row == self.rows@[i],
                None => forall|i: int| #[trigger] covering(self.rows@, address, i)
                    ==> self.rows@[i].end_sequence,
            },
    {
        let n = rows_through(&self.rows, address);
        if n == 0 {
            return None;
        }
        let i = n - 1;
        proof {
            assert(covering(self.rows@, address, i as int));
            assert forall|k: int| #[trigger] covering(self.rows@, address, k) implies k == i as int by {
                if k < i as int {
                    assert(self.rows@[i as int].address <= address);
                }
            }
        }
        let row = &self.rows[i];
        if row.end_sequence {
            None
        } else {
            Some(row)
        }
    }

    /// Where a breakpoint on a source line goes: the first statement boundary
    /// at or after the line, by line and then by address.
    pub fn breakpoint_for(&self, line: u32) -> (r: Option<&Row>)
        ensures
            match r {
                Some(row) => exists|i: int| #[trigger] breakpoint_at(self.rows@, line, i)
                    && *row == self.rows@[i],
                None => forall|i: int| 0 <= i < self.rows@.len()
                    ==> !stop_for(#[trigger] self.rows@[i], line),
            },
    {
        let mut best: Option<usize> = None;
        let mut k: usize = 0;
        while k < self.rows.len()
            invariant
                k <= self.rows@.len(),
                match best {
                    Some(b) => b < k && breakpoint_at(self.rows@.take(k as int), line, b as int),
                    None => forall|i: int| 0 <= i < k ==> !stop_for(#[trigger] self.rows@[i], line),
                },
            decreases self.rows@.len() - k,
        {
            let r = self.rows[k];
            if r.is_stmt && !r.end_sequence && r.line >= line {
                let better = match best {
                    None => true,
                    Some(b) => {
                        let c = self.rows[b];
                        r.line < c.line || (r.line == c.line && r.address < c.address)
                    },
                };
                if better {
                    best = Some(k);
                }
            }
            proof {
                let t = self.rows@.take(k as int + 1);
                assert(t =~= self.rows@.take(k as int).push(self.rows@[k as int]));
            }
            k = k + 1;
        }
        proof {
            assert(self.rows@.take(k as int) =~= self.rows@);
        }
        match best {
            Some(b) => Some(&self.rows[b]),
            None => None,
        }
    }

    /// Every address a line begins at, in address order.
    pub fn addresses_for(&self, line: u32) -> (r: Vec<u64>)
        ensures
            r@ == line_addresses(self.rows@, line),
    {
        let mut out: Vec<u64> = Vec::new();
        let mut k: usize = 0;
        while k < self.rows.len()
            invariant
                k <= self.rows@.len(),
                out@ == line_addresses(self.rows@.take(k as int), line),
            decreases self.rows@.len() - k,
        {
            let r = self.rows[k];
            proof {
                assert(self.rows@.take(k as int + 1).drop_last() =~= self.rows@.take(k as int));
            }
            if r.is_stmt && !r.end_sequence && r.line == line {
                out.push(r.address);
            }
            k = k + 1;
        }
        proof {
            assert(self.rows@.take(k as int) =~= self.rows@);
        }
        out
    }

    /// Which function an address is in, if it is in one of the user's: the
    /// last one starting at or before it, when its extent reaches that far.
    pub fn subprogram_for(&self, address: u64) -> (r: Option<&Subprogram>)
        requires
            self.wf(),
        ensures
            match r {
                Some(s) => exists|i: int| #[trigger] last_starting_by(self.subs@, address, i)
                    && spec_contains(self.subs@[i], address) && *s == self.subs@[i],
                None => forall|i: int| #[trigger] last_starting_by(self.subs@, address, i)
                    ==> !spec_contains(self.subs@[i], address),
            },
    {
        let n = subs_through(&self.subs, address);
        if n == 0 {
            proof {
                assert forall|i: int| #[trigger] last_starting_by(self.subs@, address, i) implies false by {
                    assert(self.subs@[i].low_pc > address);
                }
            }
            return None;
        }
        let i = n - 1;
        proof {
            assert(last_starting_by(self.subs@, address, i as int));
            assert forall|k: int| #[trigger] last_starting_by(self.subs@, address, k) implies k == i as int by {
                if k < i as int {
                    assert(self.subs@[i as int].low_pc <= address);
                } else if k > i as int {
                    assert(self.subs@[k].low_pc > address);
                }
            }
        }
        let s = &self.subs[i];
        if s.contains(address) {
            Some(s)
        } else {
            None
        }
    }
}

/// Every statement boundary on `line` is among the addresses the line
/// begins at.
proof fn lemma_line_addresses_has(s: Seq<Row>, line: u32, j: int)
    requires
        0 <= j < s.len(),
        begins_line(s[j], line),
    ensures
        line_addresses(s, line).contains(s[j].address),
    decreases s.len(),
{
    let rest = line_addresses(s.drop_last(), line);
    if j == s.len() - 1 {
        assert(line_addresses(s, line) == rest.push(s.last().address));
        assert(line_addresses(s, line)[rest.len() as int] == s[j].address);
    } else {
        lemma_line_addresses_has(s.drop_last(), line, j);
        assert(s.drop_last()[j] == s[j]);
        let k = choose|k: int| 0 <= k < rest.len() && rest[k] == s[j].address;
        if begins_line(s.last(), line) {
            assert(line_addresses(s, line)[k] == s[j].address);
        } else {
            assert(line_addresses(s, line)[k] == s[j].address);
        }
    }
}

/// Where a breakpoint goes is one of the addresses its line begins at: what
/// `breakpoint_for` answers, `addresses_for` lists.
pub proof fn law_breakpoint_is_a_line_start(rows: Seq<Row>, line: u32, i: int)
    requires
        breakpoint_at(rows, line, i),
    ensures
        line_addresses(rows, rows[i].line).contains(rows[i].address),
{
    lemma_line_addresses_has(rows, rows[i].line, i);
}

/// In a table in order, a row whose address no other row shares is the row
/// that covers that address: looking up where a row starts finds the row.
pub proof fn law_a_row_covers_its_own_address(rows: Seq<Row>, i: int)
    requires
        rows_sorted(rows),
        0 <= i < rows.len(),
        forall|j: int| 0 <= j < rows.len() && j != i ==> #[trigger] rows[j].address != rows[i].address,
    ensures
        covering(rows, rows[i].address, i),
{
    assert forall|j: int| i < j < rows.len() implies #[trigger] rows[j].address > rows[i].address by {
        assert(row_le(rows[i], rows[j]));
    }
}

/// How many rows start at or before `address`: they are the first ones.
fn rows_through(rows: &Vec<Row>, address: u64) -> (n: usize)
    requires
        rows_sorted(rows@),
    ensures
        n <= rows@.len(),
        forall|k: int| 0 <= k < n ==> #[trigger] rows@[k].address <= address,
        forall|k: int| n <= k < rows@.len() ==> #[trigger] rows@[k].address > address,
{
    let mut lo: usize = 0;
    let mut hi: usize = rows.len();
    while lo < hi
        invariant
            lo <= hi <= rows@.len(),
            rows_sorted(rows@),
            forall|k: int| 0 <= k < lo ==> #[trigger] rows@[k].address <= address,
            forall|k: int| hi <= k < rows@.len() ==> #[trigger] rows@[k].address > address,
        decreases hi - lo,
    {
        let mid = lo + (hi - lo) / 2;
        if rows[mid].address <= address {
            proof {
                assert forall|k: int| 0 <= k <= mid implies #[trigger] rows@[k].address <= address by {
                    if k < mid {
                        assert(row_le(rows@[k], rows@[mid as int]));
                    }
                }
            }
            lo = mid + 1;
        } else {
            proof {
                assert forall|k: int| mid <= k < rows@.len() implies #[trigger] rows@[k].address > address by {
                    if k > mid {
                        assert(row_le(rows@[mid as int], rows@[k]));
                    }
                }
            }
            hi = mid;
        }
    }
    lo
}

/// How many functions start at or before `address`: they are the first ones.
fn subs_through(subs: &Vec<Subprogram>, address: u64) -> (n: usize)
    requires
        subs_sorted(subs@),
    ensures
        n <= subs@.len(),
        forall|k: int| 0 <= k < n ==> #[trigger] subs@[k].low_pc <= address,
        forall|k: int| n <= k < subs@.len() ==> #[trigger] subs@[k].low_pc > address,
{
    let mut lo: usize = 0;
    let mut hi: usize = subs.len();
    while lo < hi
        invariant
            lo <= hi <= subs@.len(),
            subs_sorted(subs@),
            forall|k: int| 0 <= k < lo ==> #[trigger] subs@[k].low_pc <= address,
            forall|k: int| hi <= k < subs@.len() ==> #[trigger] subs@[k].low_pc > address,
        decreases hi - lo,
    {
        let mid = lo + (hi - lo) / 2;
        if subs[mid].low_pc <= address {
            lo = mid + 1;
        } else {
            hi = mid;
        }
    }
    lo
}

/// The rows in table order; nothing added or dropped.
fn sort_rows(v: Vec<Row>) -> (r: Vec<Row>)
    ensures
        rows_sorted(r@),
        r@.len() == v@.len(),
        r@.to_multiset() == v@.to_multiset(),
        forall|k: Row| #[trigger] rows_keyed(r@, k) == rows_keyed(v@, k),
{
    let mut out: Vec<Row> = Vec::new();
    let mut i: usize = 0;
    proof {
        assert(out@ =~= v@.take(0));
    }
    while i < v.len()
        invariant
            i <= v@.len(),
            out@.len() == i,
            rows_sorted(out@),
            out@.to_multiset() == v@.take(i as int).to_multiset(),
            forall|k: Row| #[trigger] rows_keyed(out@, k) == rows_keyed(v@.take(i as int), k),
        decreases v@.len() - i,
    {
        let x = v[i];
        let mut p = out.len();
        while p > 0 && !(out[p - 1].address < x.address
            || (out[p - 1].address == x.address && (!out[p - 1].end_sequence || x.end_sequence)))
            invariant
                p <= out@.len(),
                rows_sorted(out@),
                forall|k: int| p <= k < out@.len() ==> !row_le(#[trigger] out@[k], x),
            decreases p,
        {
            p = p - 1;
        }
        proof {
            assert(v@.take(i as int + 1) =~= v@.take(i as int).push(x));
            assert forall|a: int, b: int| 0 <= a < b < out@.len() + 1 implies
                row_le(#[trigger] out@.insert(p as int, x)[a], #[trigger] out@.insert(p as int, x)[b]) by {
                if p > 0 && a < p && b == p {
                    assert(row_le(out@[a], out@[p - 1]) || a == p - 1);
                }
            }
        }
        let ghost before = out@;
        assert(forall|k: int| p <= k < before.len() ==> !row_le(#[trigger] before[k], x));
        out.insert(p, x);
        proof {
            vstd::seq_lib::to_multiset_insert(before, p as int, x);
            vstd::seq_lib::to_multiset_build(v@.take(i as int), x);
            assert forall|k: Row| #[trigger] rows_keyed(out@, k) == rows_keyed(v@.take(i + 1), k) by {
                let pred = |r: Row| same_row_key(r, k);
                assert(rows_keyed(before, k) == rows_keyed(v@.take(i as int), k));
                assert(v@.take(i + 1) == v@.take(i as int).push(x));
                lemma_filter_insert(before, p as int, x, pred);
                lemma_filter_push(v@.take(i as int), x, pred);
                let back = before.subrange(p as int, before.len() as int);
                if pred(x) {
                    assert forall|j: int| 0 <= j < back.len() implies !pred(#[trigger] back[j]) by {
                        assert(back[j] == before[p + j]);
                        assert(!row_le(before[p + j], x));
                    }
                    lemma_filter_none(back, pred);
                    assert(before.subrange(0, p as int).filter(pred) + seq![x] + back.filter(pred)
                        =~= (before.subrange(0, p as int).filter(pred) + back.filter(pred)).push(x));
                } else {
                    assert(before.subrange(0, p as int).filter(pred) + Seq::<Row>::empty() + back.filter(pred)
                        =~= before.subrange(0, p as int).filter(pred) + back.filter(pred));
                }
            }
        }
        i = i + 1;
    }
    proof {
        assert(v@.take(i as int) =~= v@);
    }
    out
}

/// The functions in address order; nothing added or dropped.
fn sort_subs(v: Vec<Subprogram>) -> (r: Vec<Subprogram>)
    ensures
        subs_sorted(r@),
        r@.to_multiset() == v@.to_multiset(),
        forall|pc: u64| #[trigger] subs_at(r@, pc) == subs_at(v@, pc),
{
    let ghost all = v@;
    let ghost mut popped: Seq<Subprogram> = Seq::empty();
    let mut v = v;
    let mut out: Vec<Subprogram> = Vec::new();
    proof {
        assert(out@ =~= popped);
        assert(all =~= v@ + popped);
    }
    while v.len() > 0
        invariant
            subs_sorted(out@),
            all == v@ + popped,
            out@.to_multiset() == popped.to_multiset(),
            forall|pc: u64| #[trigger] subs_at(out@, pc) == subs_at(popped, pc),
        decreases v@.len(),
    {
        let x = v.pop().unwrap();
        let mut p: usize = 0;
        while p < out.len() && out[p].low_pc < x.low_pc
            invariant
                p <= out@.len(),
                subs_sorted(out@),
                forall|k: int| 0 <= k < p ==> #[trigger] out@[k].low_pc < x.low_pc,
            decreases out@.len() - p,
        {
            p = p + 1;
        }
        let ghost old_popped = popped;
        proof {
            assert(all =~= v@ + popped.insert(0, x));
            vstd::seq_lib::to_multiset_insert(popped, 0, x);
            popped = popped.insert(0, x);
            assert forall|a: int, b: int| 0 <= a < b < out@.len() + 1 implies
                #[trigger] out@.insert(p as int, x)[a].low_pc <= #[trigger] out@.insert(p as int, x)[b].low_pc by {
                if a < p && b > p {
                    assert(out@[a].low_pc <= out@[b - 1].low_pc);
                }
            }
        }
        let ghost before = out@;
        out.insert(p, x);
        proof {
            vstd::seq_lib::to_multiset_insert(before, p as int, x);
            assert forall|pc: u64| #[trigger] subs_at(out@, pc) == subs_at(popped, pc) by {
                let pred = |f: Subprogram| f.low_pc == pc;
                let front = before.subrange(0, p as int);
                let back = before.subrange(p as int, before.len() as int);
                assert(subs_at(before, pc) == subs_at(old_popped, pc));
                lemma_filter_insert(before, p as int, x, pred);
                lemma_filter_insert(old_popped, 0, x, pred);
                assert(old_popped.subrange(0, 0) =~= Seq::<Subprogram>::empty());
                assert(old_popped.subrange(0, old_popped.len() as int) =~= old_popped);
                lemma_filter_none(Seq::<Subprogram>::empty(), pred);
                assert(popped == old_popped.insert(0, x));
                if pred(x) {
                    assert forall|j: int| 0 <= j < front.len() implies !pred(#[trigger] front[j]) by {
                        assert(front[j] == before[j]);
                    }
                    lemma_filter_none(front, pred);
                    assert(out@.filter(pred) =~= seq![x] + back.filter(pred));
                    assert(before.filter(pred) =~= back.filter(pred));
                    assert(popped.filter(pred) =~= seq![x] + old_popped.filter(pred));
                } else {
                    assert(out@.filter(pred) =~= front.filter(pred) + back.filter(pred));
                    assert(popped.filter(pred) =~= old_popped.filter(pred));
                }
            }
        }
    }
    proof {
        assert(all =~= popped);
    }
    out
}

/// Anything that stopped a program being read.
#[derive(Debug)]
pub enum LoadError {
    /// The file could not be opened or mapped.
    Io(std::io::Error),
    /// The file is not an object file this can read.
    Object(object::read::Error),
    /// The DWARF inside it is malformed.
    Dwarf(gimli::Error),
    /// The file is an object this can read, and carries no debug information:
    /// what a `--release` build looks like.
    NoDebugInfo,
}

/// What the backend writes at the start of `DW_AT_producer`: `OpenEPL`.
pub open spec fn producer_mark() -> Seq<u8> {
    seq![79u8, 112u8, 101u8, 110u8, 69u8, 80u8, 76u8]
}

/// The prefix the backend gives every user subroutine's symbol: `oe_user_`.
pub open spec fn user_mark() -> Seq<u8> {
    seq![111u8, 101u8, 95u8, 117u8, 115u8, 101u8, 114u8, 95u8]
}

/// Whether `b` starts with `mark`.
pub open spec fn starts_with(b: Seq<u8>, mark: Seq<u8>) -> bool {
    b.len() >= mark.len() && b.take(mark.len() as int) == mark
}

fn bytes_start_with(b: &[u8], mark: &[u8]) -> (r: bool)
    ensures
        r == starts_with(b@, mark@),
{
    if b.len() < mark.len() {
        return false;
    }
    let mut i: usize = 0;
    while i < mark.len()
        invariant
            i <= mark@.len() <= b@.len(),
            forall|k: int| 0 <= k < i ==> b@[k] == mark@[k],
        decreases mark@.len() - i,
    {
        if b[i] != mark[i] {
            return false;
        }
        i = i + 1;
    }
    proof {
        assert(b@.take(mark@.len() as int) =~= mark@);
    }
    true
}

/// Whether a unit was produced by this compiler: its producer starts with
/// `OpenEPL`. A program links other people's code, some of it with debug
/// information of its own, and only this compiler's units are the user's.
pub fn is_ours(producer: &[u8]) -> (r: bool)
    ensures
        r == starts_with(producer@, producer_mark()),
{
    let mark: [u8; 7] = [79u8, 112u8, 101u8, 110u8, 69u8, 80u8, 76u8];
    proof {
        assert(mark@ =~= producer_mark());
    }
    bytes_start_with(producer, mark.as_slice())
}

/// The table row a line-program row becomes: a row with no line is kept as
/// line 0 only when it ends a sequence, and dropped otherwise; a column at
/// the left edge is 0.
pub open spec fn spec_table_row(e: LineEntry) -> Option<Row> {
    let column: u32 = match e.column {
        Some(c) => c as u32,
        None => 0u32,
    };
    match e.line {
        Some(l) => Some(Row {
            address: e.address,
            line: l as u32,
            column,
            is_stmt: e.is_stmt,
            end_sequence: e.end_sequence,
        }),
        None => if e.end_sequence {
            Some(Row { address: e.address, line: 0, column, is_stmt: e.is_stmt, end_sequence: true })
        } else {
            None
        },
    }
}

/// The table row a line-program row becomes, if any.
pub fn table_row(e: &LineEntry) -> (r: Option<Row>)
    ensures
        r == spec_table_row(*e),
{
    let column: u32 = match e.column {
        Some(c) => #[verifier::truncate] (c as u32),
        None => 0,
    };
    match e.line {
        Some(l) => Some(Row {
            address: e.address,
            line: #[verifier::truncate] (l as u32),
            column,
            is_stmt: e.is_stmt,
            end_sequence: e.end_sequence,
        }),
        None => if e.end_sequence {
            Some(Row { address: e.address, line: 0, column, is_stmt: e.is_stmt, end_sequence: true })
        } else {
            None
        },
    }
}

/// Whether a symbol is one of the user's functions: code, with a readable
/// name that starts with `oe_user_`.
pub open spec fn is_user_function(s: SymbolEntry) -> bool {
    s.is_text && match s.name {
        Some(n) => starts_with(encode_utf8(n@), user_mark()),
        None => false,
    }
}

/// The function a symbol stands for, if it is one of the user's: its name is
/// the symbol with the prefix taken off.
pub fn user_function(s: SymbolEntry) -> (r: Option<Subprogram>)
    ensures
        r is Some <==> is_user_function(s),
        r matches Some(f) ==> s.name matches Some(n) && f.symbol@ == n@ && f.name@ == n@.skip(8)
            && f.low_pc == s.address && f.size == s.size,
{
    if !s.is_text {
        return None;
    }
    match s.name {
        None => None,
        Some(symbol) => {
            let b = symbol.as_str().as_bytes();
            let mark: [u8; 8] = [111u8, 101u8, 95u8, 117u8, 115u8, 101u8, 114u8, 95u8];
            proof {
                assert(mark@ =~= user_mark());
            }
            if !bytes_start_with(b, mark.as_slice()) {
                return None;
            }
            proof {
                assert forall|i: int| 0 <= i < 8 implies #[trigger] encode_utf8(symbol@)[i] < 128 by {
                    assert(encode_utf8(symbol@)[i] == b@.take(8)[i]);
                }
                lemma_ascii_prefix(symbol@, 8);
                encode_utf8_valid_utf8(symbol@.skip(8));
                encode_utf8_decode_utf8(symbol@.skip(8));
                assert(b@.subrange(8, b@.len() as int) =~= encode_utf8(symbol@).skip(8));
            }
            let rest = slice_range(b, 8, b.len());
            match text_from_utf8(rest.as_slice()) {
                Some(name) => Some(Subprogram { name, symbol, low_pc: s.address, size: s.size }),
                None => None,
            }
        },
    }
}

/// The bytes of the section the DWARF reader asks for by name: a section the
/// file does not have, or whose bytes cannot be read, is empty.
pub(crate) fn section_bytes<'a>(obj: &ObjectImage<'a>, name: &str) -> &'a [u8] {
    match section_by_name(obj, name) {
        Some(Ok(data)) => data,
        _ => &[],
    }
}

/// One compile unit that has a line program, as plain values: its
/// `DW_AT_producer` (empty where it has none or the string cannot be read),
/// its name and compilation directory where it records them, and the rows
/// of its line program in the order the program yields them.
pub struct UnitLines {
    pub producer: Vec<u8>,
    pub name: Option<Vec<u8>>,
    pub comp_dir: Option<Vec<u8>>,
    pub entries: Vec<LineEntry>,
}

/// The table rows one unit's entries give: each entry's row, in order, the
/// entries that give none left out.
pub open spec fn entry_rows(es: Seq<LineEntry>) -> Seq<Row>
    decreases es.len(),
{
    if es.len() == 0 {
        Seq::empty()
    } else {
        let rest = entry_rows(es.drop_last());
        match spec_table_row(es.last()) {
            Some(r) => rest.push(r),
            None => rest,
        }
    }
}

/// The unit was produced by this compiler.
pub open spec fn unit_is_ours(u: UnitLines) -> bool {
    starts_with(u.producer@, producer_mark())
}

/// The rows of the first `k` units that this compiler produced, in order.
pub open spec fn ours_rows(units: Seq<UnitLines>, k: int) -> Seq<Row>
    decreases k,
{
    if k <= 0 {
        Seq::empty()
    } else {
        let rest = ours_rows(units, k - 1);
        if unit_is_ours(units[k - 1]) { rest + entry_rows(units[k - 1].entries@) } else { rest }
    }
}

/// The source and directory after the first `k` units: the first unit of
/// this compiler's, while no source is known yet, supplies the source from
/// its name and the directory from its compilation directory, where it
/// records them (as text, bytes that are not UTF-8 replaced).
pub open spec fn unit_source(units: Seq<UnitLines>, k: int) -> (Seq<char>, Seq<char>)
    decreases k,
{
    if k <= 0 {
        (Seq::empty(), Seq::empty())
    } else {
        let (src, dir) = unit_source(units, k - 1);
        let u = units[k - 1];
        if unit_is_ours(u) && src.len() == 0 {
            (
                match u.name { Some(n) => utf8_lossy(n@), None => src },
                match u.comp_dir { Some(d) => utf8_lossy(d@), None => dir },
            )
        } else {
            (src, dir)
        }
    }
}

/// `r` is the program the units and symbols of a file make: the rows of
/// this compiler's units, the source and directory the first of them names,
/// and the user's functions among the symbols; `NoDebugInfo` exactly when
/// those units give no row.
pub open spec fn program_made(units: Seq<UnitLines>, syms: Seq<SymbolEntry>, r: Result<Program, LoadError>) -> bool {
    &&& (ours_rows(units, units.len() as int).len() == 0) <==> r is Err
    &&& (r is Err ==> r matches Err(LoadError::NoDebugInfo))
    &&& (r matches Ok(p) ==> {
        let rows = ours_rows(units, units.len() as int);
        &&& p.wf()
        &&& p.source@ == unit_source(units, units.len() as int).0
        &&& p.directory@ == unit_source(units, units.len() as int).1
        &&& p.rows@.to_multiset() == rows.to_multiset()
        &&& p.rows@.len() == rows.len()
        &&& forall|k: Row| #[trigger] rows_keyed(p.rows@, k) == rows_keyed(rows, k)
        &&& exists|q: Seq<Subprogram>| #[trigger] q.to_multiset() == p.subs@.to_multiset()
            && q.map_values(|f: Subprogram| sub_view(f)) == user_functions(syms)
            && forall|pc: u64| #[trigger] subs_at(p.subs@, pc) == subs_at(q, pc)
    })
}

/// The program the units and symbols of a file make.
pub fn program_from_units(units: Vec<UnitLines>, syms: Vec<SymbolEntry>) -> (r: Result<Program, LoadError>)
    ensures
        program_made(units@, syms@, r),
{
    let mut source = String::new();
    let mut directory = String::new();
    let mut rows: Vec<Row> = Vec::new();
    let mut i: usize = 0;
    while i < units.len()
        invariant
            i <= units@.len(),
            rows@ == ours_rows(units@, i as int),
            source@ == unit_source(units@, i as int).0,
            directory@ == unit_source(units@, i as int).1,
        decreases units@.len() - i,
    {
        let u = &units[i];
        if is_ours(u.producer.as_slice()) {
            if source.as_str().as_bytes().len() == 0 {
                proof {
                    vstd::utf8::encode_utf8_decode_utf8(source@);
                    crate::text::lemma_encode_utf8_empty(source@);
                }
                match &u.name {
                    Some(n) => source = lossy_text(n.as_slice()),
                    None => {},
                }
                match &u.comp_dir {
                    Some(d) => directory = lossy_text(d.as_slice()),
                    None => {},
                }
            } else {
                proof {
                    crate::text::lemma_encode_utf8_empty(source@);
                }
            }
            let ghost before = rows@;
            let mut j: usize = 0;
            while j < u.entries.len()
                invariant
                    j <= u.entries@.len(),
                    rows@ == before + entry_rows(u.entries@.subrange(0, j as int)),
                decreases u.entries@.len() - j,
            {
                let ghost pre = rows@;
                match table_row(&u.entries[j]) {
                    Some(row) => rows.push(row),
                    None => {},
                }
                proof {
                    let es = u.entries@.subrange(0, j + 1);
                    assert(es.drop_last() =~= u.entries@.subrange(0, j as int));
                    assert(es.last() == u.entries@[j as int]);
                    assert(rows@ =~= before + entry_rows(es));
                }
                j = j + 1;
            }
            proof {
                assert(u.entries@.subrange(0, u.entries@.len() as int) =~= u.entries@);
            }
        }
        i = i + 1;
    }
    assemble(source, directory, rows, syms)
}

/// A unit by what the table reads of it: its producer, name, compilation
/// directory and line-program rows.
pub open spec fn unit_view(u: UnitLines) -> (Seq<u8>, Option<Seq<u8>>, Option<Seq<u8>>, Seq<LineEntry>) {
    (
        u.producer@,
        match u.name { Some(n) => Some(n@), None => None },
        match u.comp_dir { Some(d) => Some(d@), None => None },
        u.entries@,
    )
}

/// A symbol by its parts: whether it names code, its name where it could be
/// read, its address and its size.
pub open spec fn symbol_view(s: SymbolEntry) -> (bool, Option<Seq<char>>, u64, u64) {
    (s.is_text, match s.name { Some(n) => Some(n@), None => None }, s.address, s.size)
}

/// The rows of unit `k`'s line-number program from step `j` on, at most
/// `steps` of them, after `acc`: `None` where reading one fails.
pub open spec fn rows_read(image: Seq<u8>, little: bool, k: int, j: int, steps: int, acc: Seq<LineEntry>) -> Option<Seq<LineEntry>>
    decreases steps,
{
    if steps <= 0 {
        Some(acc)
    } else {
        match file_row(image, little, k, j) {
            None => None,
            Some(None) => Some(acc),
            Some(Some(e)) => rows_read(image, little, k, j + 1, steps - 1, acc.push(e)),
        }
    }
}

/// A producer as the table takes it: its bytes, or none where the unit has
/// no readable one.
pub open spec fn producer_bytes(p: Option<Option<Seq<u8>>>) -> Seq<u8> {
    match p {
        Some(Some(b)) => b,
        _ => Seq::empty(),
    }
}

/// What unit `k` gives: `None` where reading it fails, `Some(None)` for a
/// unit with no line-number program, else its producer, name, directory
/// and, for a unit of this compiler's, its rows.
pub open spec fn unit_read(image: Seq<u8>, little: bool, k: int)
    -> Option<Option<(Seq<u8>, Option<Seq<u8>>, Option<Seq<u8>>, Seq<LineEntry>)>>
{
    if !file_unit_opens(image, little, k) {
        None
    } else if !file_unit_has_lines(image, little, k) {
        Some(None)
    } else {
        match file_unit_producer(image, little, k) {
            None => None,
            Some(p) => {
                let producer = producer_bytes(p);
                let entries = if starts_with(producer, producer_mark()) {
                    rows_read(image, little, k, 0, image.len() as int, Seq::empty())
                } else {
                    Some(Seq::empty())
                };
                match entries {
                    None => None,
                    Some(es) => Some(Some((producer, file_unit_name(image, little, k), file_unit_comp_dir(image, little, k), es))),
                }
            },
        }
    }
}

/// The units with a line-number program from header `k` on, at most `steps`
/// headers, after `acc`: `None` where reading one fails.
pub open spec fn units_read(
    image: Seq<u8>,
    little: bool,
    k: int,
    steps: int,
    acc: Seq<(Seq<u8>, Option<Seq<u8>>, Option<Seq<u8>>, Seq<LineEntry>)>,
) -> Option<Seq<(Seq<u8>, Option<Seq<u8>>, Option<Seq<u8>>, Seq<LineEntry>)>>
    decreases steps,
{
    if steps <= 0 {
        Some(acc)
    } else {
        match file_header(image, little, k) {
            None => None,
            Some(false) => Some(acc),
            Some(true) => match unit_read(image, little, k) {
                None => None,
                Some(None) => units_read(image, little, k + 1, steps - 1, acc),
                Some(Some(u)) => units_read(image, little, k + 1, steps - 1, acc.push(u)),
            },
        }
    }
}

/// The symbols of the file from step `j` on, at most `steps` of them, after
/// `acc`.
pub open spec fn symbols_read(image: Seq<u8>, j: int, steps: int, acc: Seq<(bool, Option<Seq<char>>, u64, u64)>)
    -> Seq<(bool, Option<Seq<char>>, u64, u64)>
    decreases steps,
{
    if steps <= 0 {
        acc
    } else {
        match file_symbol(image, j) {
            None => acc,
            Some(x) => symbols_read(image, j + 1, steps - 1, acc.push(x)),
        }
    }
}

/// `units` and `syms` hold what the file's units and symbols read as.
pub open spec fn read_as(
    units: Seq<UnitLines>,
    syms: Seq<SymbolEntry>,
    us: Seq<(Seq<u8>, Option<Seq<u8>>, Option<Seq<u8>>, Seq<LineEntry>)>,
    ss: Seq<(bool, Option<Seq<char>>, u64, u64)>,
) -> bool {
    units.map_values(|u: UnitLines| unit_view(u)) == us && syms.map_values(|x: SymbolEntry| symbol_view(x)) == ss
}

/// Read a built program's debug information from the bytes of its file.
///
/// Only the units this compiler produced are read; the rows of their line
/// programs make the table, and the symbols that are the user's functions
/// make the function list. The source and directory are those the first such
/// unit that names a source records.
///
/// Each unit header, line-program row and symbol the readers hand out takes
/// at least one byte of the file, so no walk needs more steps than the file
/// has bytes; each walk is bounded by that count.
pub fn load(image: &[u8]) -> (r: Result<Program, LoadError>)
    ensures
        !file_reads(image@) ==> r matches Err(LoadError::Object(_)),
        file_reads(image@) ==> match units_read(image@, file_is_little(image@), 0, image@.len() as int, Seq::empty()) {
            None => r matches Err(LoadError::Dwarf(_)),
            Some(us) => exists|units: Seq<UnitLines>, syms: Seq<SymbolEntry>|
                #[trigger] read_as(units, syms, us, symbols_read(image@, 0, image@.len() as int, Seq::empty()))
                && program_made(units, syms, r),
        },
{
    let img = match parse_object(image) {
        Ok(o) => o,
        Err(e) => return Err(LoadError::Object(e)),
    };
    let little = is_little_endian(&img);
    let dwarf = load_dwarf(&img, little);
    let ghost len = image@.len() as int;
    let ghost whole = units_read(image@, little, 0, len, Seq::empty());
    let mut found: Vec<UnitLines> = Vec::new();
    let mut cursor = units(&dwarf);
    let mut unit_steps: usize = image.len();
    proof {
        assert(found@.map_values(|u: UnitLines| unit_view(u)) =~= Seq::empty());
    }
    while unit_steps > 0
        invariant_except_break
            cursor.at() == len - unit_steps,
            whole == units_read(image@, little, cursor.at(), unit_steps as int, found@.map_values(|u: UnitLines| unit_view(u))),
        invariant
            unit_steps <= len == image@.len(),
            file_reads(image@),
            little == file_is_little(image@),
            dwarf.image() == image@ && dwarf.little() == little,
            cursor.image() == image@ && cursor.little() == little,
            whole == units_read(image@, little, 0, len, Seq::empty()),
        ensures
            whole == Some(found@.map_values(|u: UnitLines| unit_view(u))),
        decreases unit_steps,
    {
        let ghost k = cursor.at();
        let ghost acc = found@.map_values(|u: UnitLines| unit_view(u));
        unit_steps = unit_steps - 1;
        let header = match next_header(&mut cursor) {
            Ok(Some(h)) => h,
            Ok(None) => break,
            Err(e) => return Err(LoadError::Dwarf(e)),
        };
        let unit = match open_unit(&dwarf, header) {
            Ok(u) => u,
            Err(e) => return Err(LoadError::Dwarf(e)),
        };
        let mut lines = match line_rows(&unit) {
            Some(l) => l,
            None => continue,
        };
        let ghost pr = file_unit_producer(image@, little, k);
        let producer: Vec<u8> = match unit_producer(&dwarf, &unit) {
            Ok(Some(Ok(b))) => b,
            Ok(Some(Err(_))) => Vec::new(),
            Ok(None) => Vec::new(),
            Err(e) => return Err(LoadError::Dwarf(e)),
        };
        proof {
            assert(producer@ == producer_bytes(pr->Some_0));
        }
        let mut entries: Vec<LineEntry> = Vec::new();
        if is_ours(producer.as_slice()) {
            let ghost rows_whole = rows_read(image@, little, k, 0, len, Seq::empty());
            let mut row_steps: usize = image.len();
            while row_steps > 0
                invariant_except_break
                    lines.at() == len - row_steps,
                    rows_whole == rows_read(image@, little, k, lines.at(), row_steps as int, entries@),
                invariant
                    row_steps <= len == image@.len(),
                    file_reads(image@),
                    little == file_is_little(image@),
                    whole == units_read(image@, little, 0, len, Seq::empty()),
                    whole == units_read(image@, little, k, unit_steps + 1, acc),
                    file_header(image@, little, k) == Some(true),
                    file_unit_opens(image@, little, k) && file_unit_has_lines(image@, little, k),
                    file_unit_producer(image@, little, k) == pr && pr is Some,
                    producer@ == producer_bytes(pr->Some_0),
                    starts_with(producer@, producer_mark()),
                    lines.image() == image@ && lines.little() == little && lines.unit() == k,
                    rows_whole == rows_read(image@, little, k, 0, len, Seq::empty()),
                ensures
                    rows_whole == Some(entries@),
                decreases row_steps,
            {
                row_steps = row_steps - 1;
                match next_row(&mut lines) {
                    Ok(Some(e)) => entries.push(e),
                    Ok(None) => break,
                    Err(e) => {
                        proof {
                            assert(rows_whole is None);
                            assert(unit_read(image@, little, k) is None);
                            assert(whole is None);
                        }
                        return Err(LoadError::Dwarf(e));
                    },
                }
            }
        }
        let u = UnitLines { producer, name: unit_name(&unit), comp_dir: unit_comp_dir(&unit), entries };
        proof {
            assert(unit_read(image@, little, k) == Some(Some(unit_view(u))));
        }
        found.push(u);
        proof {
            assert(found@.map_values(|u: UnitLines| unit_view(u)) =~= acc.push(unit_view(u)));
        }
    }
    let ghost sym_whole = symbols_read(image@, 0, len, Seq::empty());
    let mut syms: Vec<SymbolEntry> = Vec::new();
    let mut walk = symbols(&img);
    let mut symbol_steps: usize = image.len();
    proof {
        assert(syms@.map_values(|x: SymbolEntry| symbol_view(x)) =~= Seq::empty());
    }
    while symbol_steps > 0
        invariant_except_break
            walk.at() == len - symbol_steps,
            sym_whole == symbols_read(image@, walk.at(), symbol_steps as int, syms@.map_values(|x: SymbolEntry| symbol_view(x))),
        invariant
            symbol_steps <= len,
            walk.image() == image@,
            sym_whole == symbols_read(image@, 0, len, Seq::empty()),
        ensures
            sym_whole == syms@.map_values(|x: SymbolEntry| symbol_view(x)),
        decreases symbol_steps,
    {
        let ghost acc = syms@.map_values(|x: SymbolEntry| symbol_view(x));
        symbol_steps = symbol_steps - 1;
        match next_symbol(&mut walk) {
            Some(e) => {
                let ghost v = symbol_view(e);
                syms.push(e);
                proof {
                    assert(syms@.map_values(|x: SymbolEntry| symbol_view(x)) =~= acc.push(v));
                }
            },
            None => break,
        }
    }
    let ghost us = found@;
    let ghost ss = syms@;
    let r = program_from_units(found, syms);
    proof {
        assert(read_as(us, ss, whole->Some_0, sym_whole));
    }
    r
}

/// A function by its parts: name, symbol, start and size.
pub open spec fn sub_view(f: Subprogram) -> (Seq<char>, Seq<char>, u64, u64) {
    (f.name@, f.symbol@, f.low_pc, f.size)
}

/// The function a user symbol stands for, by its parts.
pub open spec fn user_function_view(s: SymbolEntry) -> (Seq<char>, Seq<char>, u64, u64) {
    match s.name {
        Some(n) => (n@.skip(8), n@, s.address, s.size),
        None => (Seq::empty(), Seq::empty(), s.address, s.size),
    }
}

/// The user's functions among some symbols, by their parts, in order.
pub open spec fn user_functions(s: Seq<SymbolEntry>) -> Seq<(Seq<char>, Seq<char>, u64, u64)>
    decreases s.len(),
{
    if s.len() == 0 {
        Seq::empty()
    } else {
        let rest = user_functions(s.drop_last());
        if is_user_function(s.last()) { rest.push(user_function_view(s.last())) } else { rest }
    }
}

/// The program a line table and a symbol table make: `NoDebugInfo` when the
/// table is empty; otherwise the table in order, and the symbols that are
/// the user's functions, in address order.
pub fn assemble(source: String, directory: String, rows: Vec<Row>, syms: Vec<SymbolEntry>) -> (r: Result<Program, LoadError>)
    ensures
        rows@.len() == 0 <==> r is Err,
        r is Err ==> r matches Err(LoadError::NoDebugInfo),
        r matches Ok(p) ==> {
            &&& p.wf()
            &&& p.source == source
            &&& p.directory == directory
            &&& p.rows@.to_multiset() == rows@.to_multiset()
            &&& p.rows@.len() == rows@.len()
            &&& forall|k: Row| #[trigger] rows_keyed(p.rows@, k) == rows_keyed(rows@, k)
            &&& exists|q: Seq<Subprogram>| #[trigger] q.to_multiset() == p.subs@.to_multiset()
                && q.map_values(|f: Subprogram| sub_view(f)) == user_functions(syms@)
                && forall|pc: u64| #[trigger] subs_at(p.subs@, pc) == subs_at(q, pc)
        },
{
    if rows.len() == 0 {
        return Err(LoadError::NoDebugInfo);
    }
    let ghost all = syms@;
    let mut syms = syms;
    let mut picked: Vec<Subprogram> = Vec::new();
    let ghost mut k: int = 0;
    proof {
        assert(syms@ =~= all.subrange(k, all.len() as int));
        assert(picked@.map_values(|f: Subprogram| sub_view(f)) =~= user_functions(all.subrange(0, k)));
    }
    while syms.len() > 0
        invariant
            0 <= k <= all.len(),
            syms@ == all.subrange(k, all.len() as int),
            picked@.map_values(|f: Subprogram| sub_view(f)) == user_functions(all.subrange(0, k)),
        decreases syms@.len(),
    {
        let s = syms.remove(0);
        proof {
            assert(s == all[k]);
            assert(all.subrange(0, k + 1).drop_last() =~= all.subrange(0, k));
            assert(all.subrange(0, k + 1).last() == all[k]);
            assert(syms@ =~= all.subrange(k + 1, all.len() as int));
        }
        let ghost before = picked@;
        let ghost sv = s;
        match user_function(s) {
            Some(f) => {
                picked.push(f);
                proof {
                    assert(picked@.map_values(|f: Subprogram| sub_view(f)) =~= before.map_values(
                        |f: Subprogram| sub_view(f),
                    ).push(user_function_view(sv)));
                }
            },
            None => {},
        }
        proof {
            k = k + 1;
        }
    }
    proof {
        assert(all.subrange(0, k) =~= all);
    }
    let p = Program::new(source, directory, rows, picked);
    Ok(p)
}

} // verus!
