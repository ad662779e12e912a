//! The memory layout of a C-layout record: natural alignment, padding before
//! each field and at the tail, nested records laid inline, and fixed arrays.

use vstd::prelude::*;
use crate::registry::{record_named, Registry};
use crate::types::{spec_c_size_align, RecordDef, Ty};

verus! {

/// How deep records may nest inside one another before the walk gives up.
pub const MAX_NESTING: u32 = 32;

/// `x` rounded up to a multiple of `a`.
pub open spec fn round_up(x: int, a: int) -> int {
    (x + a - 1) / a * a
}

/// How many fixed arrays are nested in `t`.
pub open spec fn array_nesting(t: Ty) -> nat
    decreases t,
{
    match t {
        Ty::CArray(a) => 1 + array_nesting(a.elem),
        _ => 0,
    }
}

/// The size and alignment of a field of type `t`, `depth` records deep:
/// a nested C-layout record is as large and as aligned as its own layout, an
/// inline array is `count` elements aligned like one, and a scalar has its C
/// size. `None` for a type with no C layout, an unknown or heap record, a
/// nesting deeper than the limit, or a size past the largest `i64`.
pub open spec fn field_layout(recs: Seq<RecordDef>, t: Ty, depth: int) -> Option<(int, int)>
    decreases 33 - depth, 2int, array_nesting(t),
{
    match t {
        Ty::Record(name) => match record_named(recs, name@) {
            Some(def) => if def.is_c {
                match record_layout(recs, def.fields@, depth) {
                    Some((_, size, align)) => Some((size, align)),
                    None => None,
                }
            } else {
                None
            },
            None => None,
        },
        Ty::CArray(a) => match field_layout(recs, a.elem, depth) {
            Some((esize, ealign)) => if esize * a.count > i64::MAX {
                None
            } else {
                Some((esize * a.count, ealign))
            },
            None => None,
        },
        _ => match spec_c_size_align(t) {
            Some((s, a)) => Some((s as int, a as int)),
            None => None,
        },
    }
}

/// The first `n` fields placed one after another: their offsets, where the
/// last one ends, and the widest alignment among them (1 for none).
pub open spec fn fields_layout(recs: Seq<RecordDef>, fields: Seq<(String, Ty)>, depth: int, n: int) -> Option<(Seq<int>, int, int)>
    decreases 33 - depth, 0int, n,
{
    if depth > MAX_NESTING || n < 0 || n > fields.len() {
        None
    } else if n == 0 {
        Some((Seq::empty(), 0, 1))
    } else {
        match fields_layout(recs, fields, depth, n - 1) {
            Some((offsets, cursor, widest)) => match field_layout(recs, fields[n - 1].1, depth + 1) {
                Some((size, align)) => {
                    let at = round_up(cursor, align);
                    if at + size > i64::MAX {
                        None
                    } else {
                        Some((offsets.push(at), at + size, if align > widest { align } else { widest }))
                    }
                },
                None => None,
            },
            None => None,
        }
    }
}

/// The layout of a record with these fields, `depth` records deep: each
/// field's offset, the total size padded to a multiple of the widest
/// alignment, and that alignment.
pub open spec fn record_layout(recs: Seq<RecordDef>, fields: Seq<(String, Ty)>, depth: int) -> Option<(Seq<int>, int, int)>
    decreases 33 - depth, 1int, 0int,
{
    if depth > MAX_NESTING {
        None
    } else {
        match fields_layout(recs, fields, depth, fields.len() as int) {
            Some((offsets, cursor, widest)) => {
                let size = round_up(cursor, widest);
                if size > i64::MAX {
                    None
                } else {
                    Some((offsets, size, widest))
                }
            },
            None => None,
        }
    }
}

/// Machine integers, as numbers.
pub open spec fn as_ints(s: Seq<i64>) -> Seq<int> {
    s.map_values(|x: i64| x as int)
}

/// Once a prefix of the fields has no layout, no longer prefix has one.
proof fn lemma_fields_stay_none(recs: Seq<RecordDef>, fields: Seq<(String, Ty)>, depth: int, k: int, m: int)
    requires
        0 <= k <= m <= fields.len(),
        fields_layout(recs, fields, depth, k) is None,
    ensures
        fields_layout(recs, fields, depth, m) is None,
    decreases m - k,
{
    if m > k {
        lemma_fields_stay_none(recs, fields, depth, k, m - 1);
    }
}

proof fn lemma_round_up(x: int, a: int)
    requires
        0 <= x,
        1 <= a,
    ensures
        x <= round_up(x, a) <= x + a - 1,
{
    assert(x <= (x + a - 1) / a * a <= x + a - 1) by (nonlinear_arith)
        requires
            0 <= x,
            1 <= a,
    {
        let q = (x + a - 1) / a;
        let r = (x + a - 1) % a;
        assert(x + a - 1 == q * a + r);
        assert(0 <= r < a);
    }
}

proof fn lemma_round_up_multiple(x: int, a: int)
    requires
        1 <= a,
    ensures
        round_up(x, a) % a == 0,
{
    vstd::arithmetic::div_mod::lemma_mod_multiples_basic((x + a - 1) / a, a);
}

/// A field's size is not negative and its alignment is between 1 and 8.
proof fn lemma_field_bounds(recs: Seq<RecordDef>, t: Ty, depth: int)
    ensures
        field_layout(recs, t, depth) matches Some((s, a)) ==> 0 <= s && 1 <= a <= 8,
    decreases 33 - depth, 2int, array_nesting(t),
{
    match t {
        Ty::Record(name) => match record_named(recs, name@) {
            Some(def) => if def.is_c {
                lemma_record_bounds(recs, def.fields@, depth);
            },
            None => {},
        },
        Ty::CArray(a) => {
            lemma_field_bounds(recs, a.elem, depth);
            if let Some((es, ea)) = field_layout(recs, a.elem, depth) {
                assert(es * a.count >= 0) by (nonlinear_arith)
                    requires
                        es >= 0,
                        a.count >= 0,
                ;
            }
        },
        _ => {},
    }
}

proof fn lemma_fields_bounds(recs: Seq<RecordDef>, fields: Seq<(String, Ty)>, depth: int, n: int)
    ensures
        fields_layout(recs, fields, depth, n) matches Some((offsets, cursor, widest))
            ==> 0 <= cursor && 1 <= widest <= 8 && offsets.len() == n,
    decreases 33 - depth, 0int, n,
{
    if depth <= MAX_NESTING && 0 < n <= fields.len() {
        lemma_fields_bounds(recs, fields, depth, n - 1);
        lemma_field_bounds(recs, fields[n - 1].1, depth + 1);
        if let Some((_, cursor, _)) = fields_layout(recs, fields, depth, n - 1) {
            if let Some((_, align)) = field_layout(recs, fields[n - 1].1, depth + 1) {
                lemma_round_up(cursor, align);
            }
        }
    }
}

proof fn lemma_record_bounds(recs: Seq<RecordDef>, fields: Seq<(String, Ty)>, depth: int)
    ensures
        record_layout(recs, fields, depth) matches Some((offsets, size, align))
            ==> 0 <= size && 1 <= align <= 8 && offsets.len() == fields.len(),
    decreases 33 - depth, 1int, 0int,
{
    if depth <= MAX_NESTING {
        lemma_fields_bounds(recs, fields, depth, fields.len() as int);
        if let Some((_, cursor, widest)) = fields_layout(recs, fields, depth, fields.len() as int) {
            lemma_round_up(cursor, widest);
        }
    }
}

/// Field `k` is placed at an offset that is a multiple of its alignment, it
/// ends by the next field's offset (the last one by `last`), and it is no
/// more aligned than `widest`.
pub open spec fn placed(recs: Seq<RecordDef>, fields: Seq<(String, Ty)>, depth: int, offsets: Seq<int>, k: int, last: int, widest: int) -> bool {
    let end = if k + 1 < offsets.len() { offsets[k + 1] } else { last };
    match field_layout(recs, fields[k].1, depth + 1) {
        Some((size, align)) => offsets[k] % align == 0 && offsets[k] + size <= end && align <= widest,
        None => false,
    }
}

proof fn lemma_fields_placed(recs: Seq<RecordDef>, fields: Seq<(String, Ty)>, depth: int, n: int)
    ensures
        fields_layout(recs, fields, depth, n) matches Some((offsets, cursor, widest)) ==> forall|k: int| 0 <= k < n
            ==> #[trigger] placed(recs, fields, depth, offsets, k, cursor, widest),
    decreases n,
{
    if depth <= MAX_NESTING && 0 < n <= fields.len() {
        lemma_fields_placed(recs, fields, depth, n - 1);
        lemma_fields_bounds(recs, fields, depth, n - 1);
        lemma_field_bounds(recs, fields[n - 1].1, depth + 1);
        if let Some((offsets, cursor, widest)) = fields_layout(recs, fields, depth, n - 1) {
            if let Some((size, align)) = field_layout(recs, fields[n - 1].1, depth + 1) {
                let at = round_up(cursor, align);
                lemma_round_up(cursor, align);
                lemma_round_up_multiple(cursor, align);
                if at + size <= i64::MAX {
                    let o2 = offsets.push(at);
                    let w2 = if align > widest { align } else { widest };
                    assert forall|k: int| 0 <= k < n implies #[trigger] placed(recs, fields, depth, o2, k, at + size, w2) by {
                        if k < n - 1 {
                            assert(placed(recs, fields, depth, offsets, k, cursor, widest));
                            assert(o2[k] == offsets[k]);
                            if k + 1 < n - 1 {
                                assert(o2[k + 1] == offsets[k + 1]);
                            }
                        }
                    }
                }
            }
        }
    }
}

/// The C layout rules hold of every layout computed: each field sits at a
/// multiple of its own alignment, ends before the next one starts (the last
/// one before the end of the struct), and is no more aligned than the
/// struct; the struct's size is a multiple of its alignment, so the next
/// element of an array of them starts as aligned as the first.
pub proof fn law_fields_are_aligned_and_disjoint(recs: Seq<RecordDef>, fields: Seq<(String, Ty)>, depth: int)
    ensures
        record_layout(recs, fields, depth) matches Some((offsets, size, align)) ==> {
            &&& size % align == 0
            &&& forall|k: int| 0 <= k < fields.len() ==> #[trigger] placed(recs, fields, depth, offsets, k, size, align)
        },
{
    let n = fields.len() as int;
    if depth <= MAX_NESTING {
        lemma_fields_placed(recs, fields, depth, n);
        lemma_fields_bounds(recs, fields, depth, n);
        if let Some((offsets, cursor, widest)) = fields_layout(recs, fields, depth, n) {
            lemma_round_up(cursor, widest);
            lemma_round_up_multiple(cursor, widest);
            let size = round_up(cursor, widest);
            assert forall|k: int| 0 <= k < n implies #[trigger] placed(recs, fields, depth, offsets, k, size, widest) by {
                assert(placed(recs, fields, depth, offsets, k, cursor, widest));
            }
        }
    }
}

/// The size a field of type `t` takes (0 when it has no layout).
pub open spec fn size_of_field(recs: Seq<RecordDef>, t: Ty, depth: int) -> int {
    match field_layout(recs, t, depth) {
        Some((s, _)) => s,
        None => 0,
    }
}

/// The alignment a field of type `t` needs (0 when it has no layout).
pub open spec fn align_of_field(recs: Seq<RecordDef>, t: Ty, depth: int) -> int {
    match field_layout(recs, t, depth) {
        Some((_, a)) => a,
        None => 0,
    }
}

/// Where field `k` may start at the earliest: where the field before it
/// ends, or 0 for the first.
pub open spec fn end_before(recs: Seq<RecordDef>, fields: Seq<(String, Ty)>, depth: int, offsets: Seq<int>, k: int) -> int {
    if k <= 0 { 0 } else { offsets[k - 1] + size_of_field(recs, fields[k - 1].1, depth + 1) }
}

proof fn lemma_fields_snug(recs: Seq<RecordDef>, fields: Seq<(String, Ty)>, depth: int, n: int)
    ensures
        fields_layout(recs, fields, depth, n) matches Some((offsets, cursor, widest)) ==> {
            &&& forall|k: int| 0 <= k < n ==> field_layout(recs, #[trigger] fields[k].1, depth + 1) is Some
            &&& forall|k: int| 0 <= k < n ==> end_before(recs, fields, depth, offsets, k) <= #[trigger] offsets[k]
                < end_before(recs, fields, depth, offsets, k) + align_of_field(recs, fields[k].1, depth + 1)
            &&& cursor == end_before(recs, fields, depth, offsets, n)
            &&& (widest == 1 || exists|k: int| 0 <= k < n && #[trigger] align_of_field(recs, fields[k].1, depth + 1) == widest)
        },
    decreases n,
{
    if depth <= MAX_NESTING && 0 < n <= fields.len() {
        lemma_fields_snug(recs, fields, depth, n - 1);
        lemma_fields_bounds(recs, fields, depth, n - 1);
        lemma_field_bounds(recs, fields[n - 1].1, depth + 1);
        if let Some((offsets, cursor, widest)) = fields_layout(recs, fields, depth, n - 1) {
            if let Some((size, align)) = field_layout(recs, fields[n - 1].1, depth + 1) {
                let at = round_up(cursor, align);
                lemma_round_up(cursor, align);
                if at + size <= i64::MAX {
                    let o2 = offsets.push(at);
                    let w2 = if align > widest { align } else { widest };
                    assert forall|k: int| 0 <= k < n implies end_before(recs, fields, depth, o2, k) <= #[trigger] o2[k]
                        < end_before(recs, fields, depth, o2, k) + align_of_field(recs, fields[k].1, depth + 1) by {
                        if k < n - 1 {
                            assert(o2[k] == offsets[k]);
                            assert(end_before(recs, fields, depth, o2, k) == end_before(recs, fields, depth, offsets, k));
                        } else {
                            assert(end_before(recs, fields, depth, o2, k) == end_before(recs, fields, depth, offsets, n - 1));
                        }
                    }
                    assert(end_before(recs, fields, depth, o2, n) == at + size);
                    if w2 != 1 {
                        if align > widest {
                            assert(align_of_field(recs, fields[n - 1].1, depth + 1) == w2);
                        } else {
                            let k = choose|k: int| 0 <= k < n - 1 && #[trigger] align_of_field(recs, fields[k].1, depth + 1) == widest;
                            assert(align_of_field(recs, fields[k].1, depth + 1) == w2);
                        }
                    }
                }
            }
        }
    }
}

/// The layout wastes no space: each field starts at the first offset its
/// alignment allows after the field before it ends (the first at 0), the
/// size adds only the tail padding that brings it to a multiple of the
/// alignment, and the alignment is that of the most aligned field (1 for a
/// record without fields).
pub proof fn law_fields_are_packed_as_tight_as_alignment_allows(recs: Seq<RecordDef>, fields: Seq<(String, Ty)>, depth: int)
    ensures
        record_layout(recs, fields, depth) matches Some((offsets, size, align)) ==> {
            &&& forall|k: int| 0 <= k < fields.len() ==> end_before(recs, fields, depth, offsets, k) <= #[trigger] offsets[k]
                < end_before(recs, fields, depth, offsets, k) + align_of_field(recs, fields[k].1, depth + 1)
            &&& end_before(recs, fields, depth, offsets, fields.len() as int) <= size
                < end_before(recs, fields, depth, offsets, fields.len() as int) + align
            &&& forall|k: int| 0 <= k < fields.len() ==> #[trigger] align_of_field(recs, fields[k].1, depth + 1) <= align
            &&& (align == 1 || exists|k: int| 0 <= k < fields.len() && #[trigger] align_of_field(recs, fields[k].1, depth + 1) == align)
        },
{
    let n = fields.len() as int;
    if depth <= MAX_NESTING {
        lemma_fields_snug(recs, fields, depth, n);
        lemma_fields_placed(recs, fields, depth, n);
        lemma_fields_bounds(recs, fields, depth, n);
        if let Some((offsets, cursor, widest)) = fields_layout(recs, fields, depth, n) {
            lemma_round_up(cursor, widest);
            assert forall|k: int| 0 <= k < n implies #[trigger] align_of_field(recs, fields[k].1, depth + 1) <= widest by {
                assert(placed(recs, fields, depth, offsets, k, cursor, widest));
            }
        }
    }
}

/// `x` rounded up to a multiple of `a`, on machine integers.
fn round_up_exec(x: u128, a: u128) -> (r: u128)
    requires
        x <= i64::MAX,
        1 <= a <= 8,
    ensures
        r == round_up(x as int, a as int),
        x <= r <= x + 7,
{
    proof {
        lemma_round_up(x as int, a as int);
    }
    let q = (x + a - 1) / a;
    assert(q * a == (x + a - 1) as int / a as int * a as int);
    q * a
}

impl RecordDef {
    /// The C-struct layout of an `is c` record: the byte offset of each field
    /// (parallel to `fields`), the total `sizeof` with tail padding, and the
    /// alignment of the widest member. Nested records are looked up in
    /// `reg`. `None` when some field has no C layout (an unknown or heap
    /// record, a type C cannot hold), when records nest more than
    /// `MAX_NESTING` deep, or when the size passes the largest `i64`.
    pub fn c_layout(&self, reg: &Registry) -> (r: Option<(Vec<i64>, i64, i64)>)
        ensures
            match (r, record_layout(reg.record_table(), self.fields@, 0)) {
                (Some((offsets, size, align)), Some((o, s, a))) => as_ints(offsets@) == o && size == s
                    && align == a,
                (None, None) => true,
                _ => false,
            },
    {
        self.c_layout_at(reg, 0)
    }

    fn c_layout_at(&self, reg: &Registry, depth: u32) -> (r: Option<(Vec<i64>, i64, i64)>)
        ensures
            match (r, record_layout(reg.record_table(), self.fields@, depth as int)) {
                (Some((offsets, size, align)), Some((o, s, a))) => as_ints(offsets@) == o && size == s
                    && align == a && 0 <= size && 1 <= align <= 8,
                (None, None) => true,
                _ => false,
            },
        decreases 33 - depth, 1int, 0int,
    {
        if depth > MAX_NESTING {
            return None;
        }
        let ghost recs = reg.record_table();
        let ghost fields = self.fields@;
        let mut offsets: Vec<i64> = Vec::new();
        let mut cursor: i64 = 0;
        let mut max_align: i64 = 1;
        let mut i: usize = 0;
        assert(as_ints(offsets@) =~= Seq::<int>::empty());
        while i < self.fields.len()
            invariant
                depth <= MAX_NESTING,
                recs == reg.record_table(),
                fields == self.fields@,
                i <= fields.len(),
                0 <= cursor,
                1 <= max_align <= 8,
                fields_layout(recs, fields, depth as int, i as int) == Some((as_ints(offsets@), cursor as int, max_align as int)),
            decreases fields.len() - i,
        {
            let fty = self.fields[i].1;
            let (size, align) = match c_field_size_align_at(fty, reg, depth + 1) {
                Some(p) => p,
                None => {
                    proof {
                        lemma_fields_stay_none(recs, fields, depth as int, i + 1, fields.len() as int);
                    }
                    return None;
                },
            };
            let at = round_up_exec(cursor as u128, align as u128);
            let end = at + size as u128;
            if end > i64::MAX as u128 {
                proof {
                    lemma_fields_stay_none(recs, fields, depth as int, i + 1, fields.len() as int);
                }
                return None;
            }
            let ghost before = offsets@;
            offsets.push(at as i64);
            proof {
                assert(as_ints(offsets@) =~= as_ints(before).push(at as int));
            }
            cursor = end as i64;
            if align > max_align {
                max_align = align;
            }
            i = i + 1;
        }
        let size = round_up_exec(cursor as u128, max_align as u128);
        if size > i64::MAX as u128 {
            return None;
        }
        Some((offsets, size as i64, max_align))
    }
}

/// The size and alignment of one C-record field type: what
/// `Ty::c_size_align` gives for a scalar, a nested `is c` record's own layout
/// (looked up in `reg`), and for a fixed array `count` elements with the
/// element's alignment. `None` when the type has no C layout, the nested
/// record is unknown, is a heap record or nests too deep, or the size passes
/// the largest `i64`.
pub fn c_field_size_align(ty: Ty, reg: &Registry) -> (r: Option<(i64, i64)>)
    ensures
        match (r, field_layout(reg.record_table(), ty, 0)) {
            (Some((size, align)), Some((s, a))) => size == s && align == a,
            (None, None) => true,
            _ => false,
        },
{
    c_field_size_align_at(ty, reg, 0)
}

fn c_field_size_align_at(ty: Ty, reg: &Registry, depth: u32) -> (r: Option<(i64, i64)>)
    requires
        depth <= MAX_NESTING + 1,
    ensures
        match (r, field_layout(reg.record_table(), ty, depth as int)) {
            (Some((size, align)), Some((s, a))) => size == s && align == a && 0 <= size && 1 <= align <= 8,
            (None, None) => true,
            _ => false,
        },
    decreases 33 - depth, 2int, array_nesting(ty),
{
    match ty {
        Ty::Record(name) => {
            let def = match reg.record(name) {
                Some(d) => d,
                None => return None,
            };
            if !def.is_c {
                return None;
            }
            match def.c_layout_at(reg, depth) {
                Some((_, size, align)) => Some((size, align)),
                None => None,
            }
        },
        Ty::CArray(a) => {
            let (esize, ealign) = match c_field_size_align_at(a.elem, reg, depth) {
                Some(p) => p,
                None => return None,
            };
            assert(esize as u128 * a.count as u128 <= 0x7fff_ffff_ffff_ffffu128 * 0xffff_ffffu128) by (nonlinear_arith)
                requires
                    0 <= esize <= i64::MAX,
                    a.count <= u32::MAX,
            ;
            let total = esize as u128 * a.count as u128;
            if total > i64::MAX as u128 {
                return None;
            }
            Some((total as i64, ealign))
        },
        other => other.c_size_align(),
    }
}

} // verus!
