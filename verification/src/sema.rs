//! The pieces of static typing that the rest of the front
//! end shares: how a literal is typed on its own.

use vstd::prelude::*;
use vstd::relations::{sorted_by, total_ordering};
use vstd::utf8::encode_utf8;
use crate::registry::{component_named, names_distinct, record_named, ComponentDesc, PropertyDesc, Registry};
use crate::text::{push_str, str_eq};
use crate::types::{c_representable, elem_ty, spec_surface, Elem, Signature, Ty};
use crate::validate::{comma_joined, lemma_lex_order, lemma_lex_total, lex_less, str_less, views};

verus! {

#[derive(Debug, Clone, PartialEq)]
pub struct SemaError {
    pub msg: String,
}

/// The static type of an integer literal: `int` if it fits in 32 bits, else
/// `int64`.
pub fn int_literal_type(v: i64) -> (t: Ty)
    ensures
        t == (if i32::MIN <= v <= i32::MAX { Ty::Int } else { Ty::Int64 }),
{
    if i32::MIN as i64 <= v && v <= i32::MAX as i64 {
        Ty::Int
    } else {
        Ty::Int64
    }
}

/// The type a hex or binary literal has on its own: a pattern of 32 bits or
/// fewer is an `int`, a wider one an `int64`.
pub fn bits_bare_type(v: u64) -> (t: Ty)
    ensures
        t == (if v <= u32::MAX { Ty::Int } else { Ty::Int64 }),
{
    if v <= u32::MAX as u64 { Ty::Int } else { Ty::Int64 }
}

/// The number a hex or binary literal stands for on its own: a pattern of 32
/// bits or fewer is the `int` with exactly those bits, a wider one the
/// `int64` with exactly those bits.
pub open spec fn spec_bits_value(v: u64) -> int {
    if v <= u32::MAX {
        if v <= i32::MAX { v as int } else { v - 0x1_0000_0000 }
    } else if v <= i64::MAX {
        v as int
    } else {
        v - 0x1_0000_0000_0000_0000
    }
}

/// A bit pattern keeps its bits: a pattern of 32 bits or fewer reads as the
/// one `int` (32-bit) number with those low 32 bits, a wider one as the one
/// `int64` number with those 64 bits.
pub proof fn law_bit_patterns_keep_their_bits(v: u64)
    ensures
        v <= u32::MAX ==> i32::MIN <= spec_bits_value(v) <= i32::MAX
            && (spec_bits_value(v) - v) % 0x1_0000_0000 == 0,
        v > u32::MAX ==> i64::MIN <= spec_bits_value(v) <= i64::MAX
            && (spec_bits_value(v) - v) % 0x1_0000_0000_0000_0000 == 0,
{
}

/// The number a hex or binary literal stands for on its own.
pub fn bits_value(v: u64) -> (n: i64)
    ensures
        n == spec_bits_value(v),
{
    if v <= u32::MAX as u64 {
        if v <= i32::MAX as u64 { v as i64 } else { v as i64 - 0x1_0000_0000 }
    } else if v <= i64::MAX as u64 {
        v as i64
    } else {
        ((v - 0x8000_0000_0000_0000u64) as i64) + i64::MIN
    }
}

/// The element a generic parameter's argument fixes: the first parameter,
/// from `i` on, that takes any list or any dictionary and whose argument is a
/// list or dictionary of something in particular.
pub open spec fn fixed_elem(params: Seq<Ty>, args: Seq<Ty>, i: int) -> Option<Elem>
    decreases params.len() - i,
{
    if i < 0 || i >= params.len() || i >= args.len() {
        None
    } else {
        match (params[i], args[i]) {
            (Ty::AnyArray, Ty::Array(e)) => Some(e),
            (Ty::AnyDict, Ty::Dict(e)) => Some(e),
            _ => fixed_elem(params, args, i + 1),
        }
    }
}

/// The type a call yields once its arguments' types are known.
pub open spec fn spec_resolve_ret(sig_ret: Option<Ty>, params: Seq<Ty>, args: Seq<Ty>) -> Option<Ty> {
    match sig_ret {
        None => None,
        Some(ret) => Some(match (ret, fixed_elem(params, args, 0)) {
            (Ty::AnyArray, Some(e)) => Ty::Array(e),
            (Ty::AnyDict, Some(e)) => Ty::Dict(e),
            (Ty::AnyElem, Some(e)) => elem_ty(e),
            (t, _) => t,
        }),
    }
}

/// The first generic argument decides: where parameter `i` takes any list
/// (or any dictionary) and its argument is a list (a dictionary) of `e`, and
/// no earlier argument fixes an element, a call returning any list returns a
/// list of `e`, one returning any dictionary a dictionary of `e`, and one
/// returning any element returns `e`'s type; a return type that is not
/// generic is returned as declared.
pub proof fn law_first_generic_argument_decides(ret: Ty, params: Seq<Ty>, args: Seq<Ty>, i: int, e: Elem)
    requires
        0 <= i < params.len(),
        i < args.len(),
        (params[i] == Ty::AnyArray && args[i] == Ty::Array(e)) || (params[i] == Ty::AnyDict && args[i] == Ty::Dict(e)),
        forall|j: int| 0 <= j < i ==> !(params[j] is AnyArray && args[j] is Array)
            && !(params[j] is AnyDict && args[j] is Dict),
    ensures
        ret == Ty::AnyArray ==> spec_resolve_ret(Some(ret), params, args) == Some(Ty::Array(e)),
        ret == Ty::AnyDict ==> spec_resolve_ret(Some(ret), params, args) == Some(Ty::Dict(e)),
        ret == Ty::AnyElem ==> spec_resolve_ret(Some(ret), params, args) == Some(elem_ty(e)),
        !(ret is AnyArray || ret is AnyDict || ret is AnyElem) ==> spec_resolve_ret(Some(ret), params, args) == Some(ret),
{
    lemma_fixed_from(params, args, 0, i, e);
}

/// Scanning from `k` on finds the element at `i` when nothing between fixes one.
proof fn lemma_fixed_from(params: Seq<Ty>, args: Seq<Ty>, k: int, i: int, e: Elem)
    requires
        0 <= k <= i < params.len(),
        i < args.len(),
        (params[i] == Ty::AnyArray && args[i] == Ty::Array(e)) || (params[i] == Ty::AnyDict && args[i] == Ty::Dict(e)),
        forall|j: int| k <= j < i ==> !(params[j] is AnyArray && args[j] is Array)
            && !(params[j] is AnyDict && args[j] is Dict),
    ensures
        fixed_elem(params, args, k) == Some(e),
    decreases i - k,
{
    if k < i {
        lemma_fixed_from(params, args, k + 1, i, e);
    }
}

/// The element that the first generic argument of a call fixes, if any.
fn first_fixed_elem(params: &[Ty], arg_tys: &[Ty]) -> (r: Option<Elem>)
    ensures
        r == fixed_elem(params@, arg_tys@, 0),
{
    let mut i: usize = 0;
    while i < params.len() && i < arg_tys.len()
        invariant
            i <= params@.len(),
            fixed_elem(params@, arg_tys@, 0) == fixed_elem(params@, arg_tys@, i as int),
        decreases params@.len() - i,
    {
        let found = match params[i] {
            Ty::AnyArray => arg_tys[i].elem(),
            Ty::AnyDict => arg_tys[i].value(),
            _ => None,
        };
        if found.is_some() {
            return found;
        }
        i = i + 1;
    }
    None
}

/// The concrete type a call yields, given what its arguments turned out to
/// be: a generic return (any list, any dictionary, any element) takes the
/// element the first generic argument fixes. `None` for a command that
/// returns nothing.
pub fn resolve_ret(sig: &Signature, arg_tys: &[Ty]) -> (r: Option<Ty>)
    ensures
        r == spec_resolve_ret(sig.ret, sig.params@, arg_tys@),
{
    let ret = match sig.ret {
        Some(t) => t,
        None => return None,
    };
    let elem = first_fixed_elem(sig.params.as_slice(), arg_tys);
    Some(match (ret, elem) {
        (Ty::AnyArray, Some(e)) => Ty::Array(e),
        (Ty::AnyDict, Some(e)) => Ty::Dict(e),
        (Ty::AnyElem, Some(e)) => e.ty(),
        (t, _) => t,
    })
}

/// The component type that the form gives the component `id`: the first
/// entry for it.
pub open spec fn type_of_component(components: Seq<(String, String)>, id: Seq<char>) -> Option<Seq<char>>
    decreases components.len(),
{
    if components.len() == 0 {
        None
    } else if components[0].0@ == id {
        Some(components[0].1@)
    } else {
        type_of_component(components.drop_first(), id)
    }
}

/// The first property declared under `name`.
pub open spec fn first_property(props: Seq<PropertyDesc>, name: Seq<char>) -> Option<PropertyDesc>
    decreases props.len(),
{
    if props.len() == 0 {
        None
    } else if props[0].name@ == name {
        Some(props[0])
    } else {
        first_property(props.drop_first(), name)
    }
}

/// Names in byte order.
pub open spec fn name_leq(a: Seq<char>, b: Seq<char>) -> bool {
    !lex_less(encode_utf8(b), encode_utf8(a))
}

/// Byte order on names, as a relation.
pub open spec fn name_order() -> spec_fn(Seq<char>, Seq<char>) -> bool {
    |a: Seq<char>, b: Seq<char>| name_leq(a, b)
}

/// The names sorted in byte order.
pub open spec fn sorted_names(names: Seq<Seq<char>>) -> Seq<Seq<char>> {
    names.sort_by(name_order())
}

/// The property names of a component type.
pub open spec fn property_names(desc: ComponentDesc) -> Seq<Seq<char>> {
    desc.properties@.map_values(|p: PropertyDesc| p.name@)
}

/// What `component.property` resolves to, or the diagnostic: the component
/// must be on the form, its type registered, and the property declared there.
pub open spec fn spec_property_desc(
    components: Seq<(String, String)>,
    types: Seq<ComponentDesc>,
    component: Seq<char>,
    property: Seq<char>,
) -> Result<PropertyDesc, Seq<char>> {
    match type_of_component(components, component) {
        None => Err("unknown component `"@ + component + "` (component ids come from the form)"@),
        Some(tn) => match component_named(types, tn) {
            None => Err("component `"@ + component + "` has unknown type `"@ + tn + "`"@),
            Some(desc) => match first_property(desc.properties@, property) {
                Some(p) => Ok(p),
                None => Err("`"@ + tn + "` has no property `"@ + property + "` (has: "@
                    + comma_joined(sorted_names(property_names(desc))) + ")"@),
            },
        },
    }
}

proof fn lemma_name_order()
    ensures
        total_ordering(name_order()),
{
    broadcast use vstd::utf8::encode_utf8_decode_utf8;
    let leq = name_order();
    assert forall|x: Seq<char>| #[trigger] leq(x, x) by {
        lemma_lex_order(encode_utf8(x), encode_utf8(x), encode_utf8(x));
    }
    assert forall|x: Seq<char>, y: Seq<char>| #[trigger] leq(x, y) && #[trigger] leq(y, x) implies x == y by {
        lemma_lex_total(encode_utf8(x), encode_utf8(y));
        assert(decode_of(encode_utf8(x)) == decode_of(encode_utf8(y)));
    }
    assert forall|x: Seq<char>, y: Seq<char>, z: Seq<char>| #[trigger] leq(x, y) && #[trigger] leq(y, z) implies leq(x, z) by {
        lemma_lex_order(encode_utf8(z), encode_utf8(y), encode_utf8(x));
    }
    assert forall|x: Seq<char>, y: Seq<char>| #[trigger] leq(x, y) || #[trigger] leq(y, x) by {
        lemma_lex_order(encode_utf8(x), encode_utf8(y), encode_utf8(x));
    }
}

spec fn decode_of(b: Seq<u8>) -> Seq<char> {
    vstd::utf8::decode_utf8(b)
}

/// The names, sorted in byte order.
fn sort_names<'a>(names: &Vec<&'a str>) -> (r: Vec<&'a str>)
    ensures
        views(r@) == sorted_names(views(names@)),
{
    let ghost leq = name_order();
    let mut out: Vec<&'a str> = Vec::new();
    let mut i: usize = 0;
    proof {
        lemma_name_order();
        assert(views(out@).to_multiset() =~= views(names@).take(0).to_multiset()) by {
            assert(views(out@) =~= views(names@).take(0));
        }
    }
    while i < names.len()
        invariant
            i <= names@.len(),
            leq == name_order(),
            total_ordering(leq),
            sorted_by(views(out@), leq),
            views(out@).to_multiset() == views(names@).take(i as int).to_multiset(),
        decreases names@.len() - i,
    {
        let x = names[i];
        let mut p: usize = 0;
        while p < out.len() && str_less(out[p], x)
            invariant
                p <= out@.len(),
                forall|k: int| 0 <= k < p ==> lex_less(encode_utf8(out@[k]@), encode_utf8(x@)),
            decreases out@.len() - p,
        {
            p = p + 1;
        }
        let ghost before = views(out@);
        assert(p < before.len() ==> name_leq(x@, before[p as int]));
        assert(forall|k: int| 0 <= k < p ==> lex_less(encode_utf8(before[k]), encode_utf8(x@)));
        out.insert(p, x);
        proof {
            broadcast use vstd::seq_lib::group_to_multiset_ensures;
            broadcast use vstd::seq_lib::lemma_multiset_commutative;
            broadcast use vstd::multiset::group_multiset_axioms;
            let front = before.subrange(0, p as int);
            let back = before.subrange(p as int, before.len() as int);
            assert(views(out@) =~= front.push(x@) + back);
            assert(before =~= front + back);
            assert(views(names@).take(i + 1) =~= views(names@).take(i as int).push(x@));
            vstd::seq_lib::lemma_multiset_commutative(front.push(x@), back);
            vstd::seq_lib::lemma_multiset_commutative(front, back);
            vstd::seq_lib::to_multiset_build(front, x@);
            vstd::seq_lib::to_multiset_build(views(names@).take(i as int), x@);
            assert(views(out@).to_multiset() =~= views(names@).take(i + 1).to_multiset());
            assert forall|a: int, b: int| 0 <= a < b < views(out@).len() implies #[trigger] leq(views(out@)[a], views(out@)[b]) by {
                let v = views(out@);
                assert(leq(v[a], v[b]) == name_leq(v[a], v[b]));
                if b < p {
                    assert(v[a] == before[a] && v[b] == before[b]);
                    assert(leq(before[a], before[b]));
                } else if b == p {
                    assert(v[a] == before[a]);
                    assert(v[b] == x@);
                    lemma_lex_order(encode_utf8(before[a]), encode_utf8(x@), encode_utf8(before[a]));
                } else if a == p {
                    assert(v[a] == x@);
                    assert(v[b] == before[b - 1]);
                    if p as int != b - 1 {
                        assert(leq(before[p as int], before[b - 1]));
                        lemma_lex_order(encode_utf8(before[b - 1]), encode_utf8(before[p as int]), encode_utf8(x@));
                    }
                } else if a < p {
                    assert(v[a] == before[a] && v[b] == before[b - 1]);
                    assert(leq(before[a], before[b - 1]));
                } else {
                    assert(v[a] == before[a - 1] && v[b] == before[b - 1]);
                    assert(leq(before[a - 1], before[b - 1]));
                }
            }
        }
        i = i + 1;
    }
    proof {
        assert(views(names@).take(names@.len() as int) =~= views(names@));
        views(names@).lemma_sort_by_ensures(leq);
        vstd::seq_lib::lemma_sorted_unique(views(out@), sorted_names(views(names@)), leq);
    }
    out
}

/// The parts joined with `, ` between them.
fn join_names(parts: &Vec<&str>) -> (r: String)
    ensures
        r@ == comma_joined(views(parts@)),
{
    let mut out = String::new();
    let mut i: usize = 0;
    while i < parts.len()
        invariant
            i <= parts@.len(),
            out@ == comma_joined(views(parts@).take(i as int)),
        decreases parts@.len() - i,
    {
        proof {
            let next = views(parts@).take(i + 1);
            assert(next.drop_last() =~= views(parts@).take(i as int));
        }
        if i > 0 {
            push_str(&mut out, ", ");
        }
        push_str(&mut out, parts[i]);
        proof {
            let next = views(parts@).take(i + 1);
            if i == 0 {
                assert(out@ =~= next[0]);
            } else {
                reveal_strlit(", ");
                assert(out@ =~= comma_joined(next.drop_last()) + seq![',', ' '] + next.last());
            }
        }
        i = i + 1;
    }
    proof {
        assert(views(parts@).take(i as int) =~= views(parts@));
    }
    out
}

/// The type the form gives a component.
fn component_type<'a>(components: &'a [(String, String)], id: &str) -> (r: Option<&'a String>)
    ensures
        match r {
            Some(t) => type_of_component(components@, id@) == Some(t@),
            None => type_of_component(components@, id@) is None,
        },
{
    let mut i: usize = 0;
    proof {
        assert(components@.skip(0) =~= components@);
    }
    while i < components.len()
        invariant
            i <= components@.len(),
            type_of_component(components@, id@) == type_of_component(components@.skip(i as int), id@),
        decreases components@.len() - i,
    {
        proof {
            assert(components@.skip(i as int).drop_first() =~= components@.skip(i + 1));
        }
        if str_eq(components[i].0.as_str(), id) {
            return Some(&components[i].1);
        }
        i = i + 1;
    }
    None
}

/// The whole descriptor of `component.property`, or a diagnostic.
///
/// `components` gives each component id on the form its type, as
/// `(id, type)` pairs; the first pair for an id counts. The diagnostic for
/// an unknown property lists the properties the type has, in byte order.
pub fn property_desc<'r>(
    component: &str,
    property: &str,
    reg: &'r Registry,
    components: &[(String, String)],
) -> (r: Result<&'r PropertyDesc, SemaError>)
    ensures
        match (r, spec_property_desc(components@, reg.component_types(), component@, property@)) {
            (Ok(p), Ok(q)) => *p == q,
            (Err(e), Err(m)) => e.msg@ == m,
            _ => false,
        },
{
    let kind = match component_type(components, component) {
        Some(t) => t,
        None => {
            let mut msg = String::new();
            push_str(&mut msg, "unknown component `");
            push_str(&mut msg, component);
            push_str(&mut msg, "` (component ids come from the form)");
            return Err(SemaError { msg });
        },
    };
    let desc = match reg.component(kind.as_str()) {
        Some(d) => d,
        None => {
            proof {
                assert(component_named(reg.component_types(), kind@) is None);
            }
            let mut msg = String::new();
            push_str(&mut msg, "component `");
            push_str(&mut msg, component);
            push_str(&mut msg, "` has unknown type `");
            push_str(&mut msg, kind.as_str());
            push_str(&mut msg, "`");
            return Err(SemaError { msg });
        },
    };
    proof {
        let types = reg.component_types();
        let i = choose|i: int| 0 <= i < types.len() && *desc == #[trigger] types[i] && desc.name@ == kind@;
        let j = choose|j: int| 0 <= j < types.len() && #[trigger] types[j].name@ == kind@;
        assert(names_distinct(types));
        assert(i == j);
    }
    match desc.property(property) {
        Some(p) => {
            proof {
                let i = choose|i: int| 0 <= i < desc.properties@.len() && *p == #[trigger] desc.properties@[i]
                    && p.name@ == property@ && forall|j: int| 0 <= j < i ==> desc.properties@[j].name@ != property@;
                lemma_first_property_at(desc.properties@, property@, i);
            }
            Ok(p)
        },
        None => {
            proof {
                lemma_first_property_none(desc.properties@, property@);
            }
            let mut known: Vec<&str> = Vec::new();
            let mut k: usize = 0;
            while k < desc.properties.len()
                invariant
                    k <= desc.properties@.len(),
                    known@.len() == k,
                    views(known@) == property_names(*desc).take(k as int),
                decreases desc.properties@.len() - k,
            {
                let ghost prev = known@;
                known.push(desc.properties[k].name.as_str());
                proof {
                    assert forall|t: int| 0 <= t < k + 1 implies #[trigger] views(known@)[t] == property_names(*desc).take(k + 1)[t] by {
                        if t < k {
                            assert(known@[t] == prev[t]);
                            assert(views(prev)[t] == property_names(*desc).take(k as int)[t]);
                        } else {
                            assert(known@[t]@ == desc.properties@[t].name@);
                        }
                    }
                    assert(views(known@) =~= property_names(*desc).take(k + 1));
                }
                k = k + 1;
            }
            proof {
                assert(property_names(*desc).take(k as int) =~= property_names(*desc));
            }
            let sorted = sort_names(&known);
            let mut msg = String::new();
            push_str(&mut msg, "`");
            push_str(&mut msg, kind.as_str());
            push_str(&mut msg, "` has no property `");
            push_str(&mut msg, property);
            push_str(&mut msg, "` (has: ");
            let list = join_names(&sorted);
            push_str(&mut msg, list.as_str());
            push_str(&mut msg, ")");
            Err(SemaError { msg })
        },
    }
}

/// A property that no earlier one shares a name with is the first of that
/// name.
proof fn lemma_first_property_at(props: Seq<PropertyDesc>, name: Seq<char>, i: int)
    requires
        0 <= i < props.len(),
        props[i].name@ == name,
        forall|j: int| 0 <= j < i ==> props[j].name@ != name,
    ensures
        first_property(props, name) == Some(props[i]),
    decreases i,
{
    if i > 0 {
        lemma_first_property_at(props.drop_first(), name, i - 1);
    }
}

/// No property of that name: none is first.
proof fn lemma_first_property_none(props: Seq<PropertyDesc>, name: Seq<char>)
    requires
        forall|i: int| 0 <= i < props.len() ==> #[trigger] props[i].name@ != name,
    ensures
        first_property(props, name) is None,
    decreases props.len(),
{
    if props.len() > 0 {
        assert forall|i: int| 0 <= i < props.drop_first().len() implies
            #[trigger] props.drop_first()[i].name@ != name by {
            assert(props.drop_first()[i] == props[i + 1]);
        }
        lemma_first_property_none(props.drop_first(), name);
    }
}

/// The declared type of `component.property`, or the diagnostic
/// `property_desc` gives.
pub fn property_type(
    component: &str,
    property: &str,
    reg: &Registry,
    components: &[(String, String)],
) -> (r: Result<Ty, SemaError>)
    ensures
        match (r, spec_property_desc(components@, reg.component_types(), component@, property@)) {
            (Ok(t), Ok(q)) => t == q.ty,
            (Err(e), Err(m)) => e.msg@ == m,
            _ => false,
        },
{
    match property_desc(component, property, reg, components) {
        Ok(p) => Ok(p.ty),
        Err(e) => Err(e),
    }
}

/// The type of the first field declared under `name`.
pub open spec fn first_field(fields: Seq<(String, Ty)>, name: Seq<char>) -> Option<Ty>
    decreases fields.len(),
{
    if fields.len() == 0 {
        None
    } else if fields[0].0@ == name {
        Some(fields[0].1)
    } else {
        first_field(fields.drop_first(), name)
    }
}

/// What `rec.field` reads as, or the diagnostic: the record must be
/// registered and declare the field; a narrow C field reads as its surface
/// type.
pub open spec fn spec_field_type(recs: Seq<crate::types::RecordDef>, rec: Seq<char>, field: Seq<char>) -> Result<Ty, Seq<char>> {
    match record_named(recs, rec) {
        None => Err("unknown record `"@ + rec + "`"@),
        Some(def) => match first_field(def.fields@, field) {
            Some(t) => Ok(spec_surface(t)),
            None => Err("record `"@ + rec + "` has no field `"@ + field + "` (has: "@
                + comma_joined(def.fields@.map_values(|f: (String, Ty)| f.0@)) + ")"@),
        },
    }
}

proof fn lemma_first_field_at(fields: Seq<(String, Ty)>, name: Seq<char>, i: int)
    requires
        0 <= i < fields.len(),
        fields[i].0@ == name,
        forall|j: int| 0 <= j < i ==> fields[j].0@ != name,
    ensures
        first_field(fields, name) == Some(fields[i].1),
    decreases i,
{
    if i > 0 {
        lemma_first_field_at(fields.drop_first(), name, i - 1);
    }
}

proof fn lemma_first_field_none(fields: Seq<(String, Ty)>, name: Seq<char>)
    requires
        forall|i: int| 0 <= i < fields.len() ==> fields[i].0@ != name,
    ensures
        first_field(fields, name) is None,
    decreases fields.len(),
{
    if fields.len() > 0 {
        assert forall|i: int| 0 <= i < fields.drop_first().len() implies
            #[trigger] fields.drop_first()[i].0@ != name by {
            assert(fields.drop_first()[i] == fields[i + 1]);
        }
        lemma_first_field_none(fields.drop_first(), name);
    }
}

/// The declared type of one field of record type `rec`, as it reads, or a
/// diagnostic naming the fields the record has.
pub fn field_type(rec: &str, field: &str, reg: &Registry) -> (r: Result<Ty, SemaError>)
    ensures
        match (r, spec_field_type(reg.record_table(), rec@, field@)) {
            (Ok(t), Ok(u)) => t == u,
            (Err(e), Err(m)) => e.msg@ == m,
            _ => false,
        },
{
    let def = match reg.record(rec) {
        Some(d) => d,
        None => {
            let mut msg = String::new();
            push_str(&mut msg, "unknown record `");
            push_str(&mut msg, rec);
            push_str(&mut msg, "`");
            return Err(SemaError { msg });
        },
    };
    match def.field(field) {
        Some((i, t)) => {
            proof {
                lemma_first_field_at(def.fields@, field@, i - 1);
            }
            Ok(t.surface())
        },
        None => {
            proof {
                lemma_first_field_none(def.fields@, field@);
            }
            let mut known: Vec<&str> = Vec::new();
            let mut k: usize = 0;
            while k < def.fields.len()
                invariant
                    k <= def.fields@.len(),
                    known@.len() == k,
                    views(known@) == def.fields@.map_values(|f: (String, Ty)| f.0@).take(k as int),
                decreases def.fields@.len() - k,
            {
                let ghost prev = known@;
                known.push(def.fields[k].0.as_str());
                proof {
                    let names = def.fields@.map_values(|f: (String, Ty)| f.0@);
                    assert forall|t: int| 0 <= t < k + 1 implies #[trigger] views(known@)[t] == names.take(k + 1)[t] by {
                        if t < k {
                            assert(known@[t] == prev[t]);
                            assert(views(prev)[t] == names.take(k as int)[t]);
                        }
                    }
                    assert(views(known@) =~= names.take(k + 1));
                }
                k = k + 1;
            }
            proof {
                assert(def.fields@.map_values(|f: (String, Ty)| f.0@).take(k as int)
                    =~= def.fields@.map_values(|f: (String, Ty)| f.0@));
            }
            let list = join_names(&known);
            let mut msg = String::new();
            push_str(&mut msg, "record `");
            push_str(&mut msg, rec);
            push_str(&mut msg, "` has no field `");
            push_str(&mut msg, field);
            push_str(&mut msg, "` (has: ");
            push_str(&mut msg, list.as_str());
            push_str(&mut msg, ")");
            Err(SemaError { msg })
        },
    }
}

/// Whether a type can be passed to or returned from C by value.
pub fn is_c_representable(t: Ty) -> (r: bool)
    ensures
        r == c_representable(t),
{
    matches!(t, Ty::Int | Ty::Int64 | Ty::Double | Ty::Bool | Ty::Text | Ty::Ptr)
}

} // verus!
