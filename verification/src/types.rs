//! The typed IR: slot types, operators, positions, and the module tree the
//! parser builds.

use vstd::prelude::*;
use crate::text::{dec, push_char, push_dec, str_eq, text};

verus! {

/// Make a process-lifetime copy of `s`.
///
/// Calls `String::leak`, which hands back the same text with the `'static`
/// lifetime and never frees it.
#[verifier::external_body]
fn leak_text(s: String) -> (r: &'static str)
    ensures
        r@ == s@,
{
    s.leak()
}

/// Make a process-lifetime copy of an inline-array description.
///
/// Calls `Box::leak` on a fresh box, which hands back a reference to the same
/// value with the `'static` lifetime and never frees it.
#[verifier::external_body]
fn leak_carray(c: CArray) -> (r: &'static CArray)
    ensures
        *r == c,
{
    Box::leak(Box::new(c))
}

/// A name that lives for the rest of the process, so a type can carry one.
///
/// `Ty` is `Copy`, and a record type is still named: the name is a
/// `&'static str` holding exactly the text asked for.
pub fn intern(s: &str) -> (r: &'static str)
    ensures
        r@ == s@,
{
    leak_text(text(s))
}

/// A fixed-count inline array in a C-struct record: `rgb: byte[32]`.
#[derive(Debug, Clone, Copy, PartialEq, Eq, Hash)]
pub struct CArray {
    pub elem: Ty,
    pub count: u32,
}

/// Make the type `elem[count]`.
pub fn carray(elem: Ty, count: u32) -> (t: Ty)
    ensures
        t matches Ty::CArray(a) && a.elem == elem && a.count == count,
{
    Ty::CArray(leak_carray(CArray { elem, count }))
}

/// What an array holds.
#[derive(Debug, Clone, Copy, PartialEq, Eq, Hash)]
pub enum Elem {
    Int,
    Int64,
    Double,
    Text,
    Bool,
    Record(&'static str),
}

/// Slot data-type tags — the ABI type system.
#[derive(Debug, Clone, Copy, PartialEq, Eq, Hash)]
pub enum Ty {
    Int,
    Int64,
    Double,
    Text,
    Bool,
    Bytes,
    Ptr,
    Byte,
    Int16,
    Float,
    CArray(&'static CArray),
    Array(Elem),
    AnyArray,
    AnyElem,
    Record(&'static str),
    Dict(Elem),
    AnyDict,
    Optional(Elem),
}

/// The element type as an ordinary type.
pub open spec fn elem_ty(e: Elem) -> Ty {
    match e {
        Elem::Int => Ty::Int,
        Elem::Int64 => Ty::Int64,
        Elem::Double => Ty::Double,
        Elem::Text => Ty::Text,
        Elem::Bool => Ty::Bool,
        Elem::Record(n) => Ty::Record(n),
    }
}

/// The element a scalar type is stored as, if it is one an array can hold.
pub open spec fn ty_elem(t: Ty) -> Option<Elem> {
    match t {
        Ty::Int => Some(Elem::Int),
        Ty::Int64 => Some(Elem::Int64),
        Ty::Double => Some(Elem::Double),
        Ty::Text => Some(Elem::Text),
        Ty::Bool => Some(Elem::Bool),
        Ty::Record(n) => Some(Elem::Record(n)),
        _ => None,
    }
}

/// The `for each` bindings over a collection of type `coll`.
pub open spec fn spec_foreach_elem_types(coll: Ty) -> Option<(Ty, Option<Ty>)> {
    match coll {
        Ty::Array(e) => Some((elem_ty(e), None)),
        Ty::Bytes => Some((Ty::Int, None)),
        Ty::Text => Some((Ty::Text, None)),
        Ty::Dict(v) => Some((Ty::Text, Some(elem_ty(v)))),
        _ => None,
    }
}

/// The bindings a `for each` introduces over a collection of type `coll`: the
/// element binding's type, and — for a dictionary — the value binding's type.
/// `None` when the type cannot be iterated.
pub fn foreach_elem_types(coll: Ty) -> (r: Option<(Ty, Option<Ty>)>)
    ensures
        r == spec_foreach_elem_types(coll),
{
    match coll {
        Ty::Array(e) => Some((e.ty(), None)),
        Ty::Bytes => Some((Ty::Int, None)),
        Ty::Text => Some((Ty::Text, None)),
        Ty::Dict(v) => Some((Ty::Text, Some(v.ty()))),
        _ => None,
    }
}

impl Elem {
    /// The element type as an ordinary type.
    pub fn ty(self) -> (t: Ty)
        ensures
            t == elem_ty(self),
    {
        match self {
            Elem::Int => Ty::Int,
            Elem::Int64 => Ty::Int64,
            Elem::Double => Ty::Double,
            Elem::Text => Ty::Text,
            Elem::Bool => Ty::Bool,
            Elem::Record(n) => Ty::Record(n),
        }
    }

    /// The element types a scalar can be stored as; `None` for anything an
    /// array cannot hold (an array, a byte-set).
    pub fn from_ty(t: Ty) -> (r: Option<Elem>)
        ensures
            r == ty_elem(t),
    {
        match t {
            Ty::Int => Some(Elem::Int),
            Ty::Int64 => Some(Elem::Int64),
            Ty::Double => Some(Elem::Double),
            Ty::Text => Some(Elem::Text),
            Ty::Bool => Some(Elem::Bool),
            Ty::Record(n) => Some(Elem::Record(n)),
            _ => None,
        }
    }

    /// The element type's spelling.
    pub fn as_str(self) -> (r: &'static str)
        ensures
            r@ == ty_spelling(elem_ty(self)),
    {
        self.ty().as_str()
    }
}

/// Every element type, read as a type and back, is itself; and a type that
/// reads as an element is that element's type.
pub proof fn law_elem_round_trip(e: Elem, t: Ty)
    ensures
        ty_elem(elem_ty(e)) == Some(e),
        ty_elem(t) matches Some(x) ==> elem_ty(x) == t,
{
}

/// The spelling of the two suffix characters and a count in decimal.
pub open spec fn elem_spelling(e: Elem) -> Seq<char> {
    match e {
        Elem::Int => "int"@,
        Elem::Int64 => "int64"@,
        Elem::Double => "double"@,
        Elem::Text => "text"@,
        Elem::Bool => "bool"@,
        Elem::Record(n) => n@,
    }
}

/// The surface-syntax / spec spelling of a type.
pub open spec fn ty_spelling(t: Ty) -> Seq<char>
    decreases t,
{
    match t {
        Ty::Int => "int"@,
        Ty::Int64 => "int64"@,
        Ty::Double => "double"@,
        Ty::Text => "text"@,
        Ty::Bool => "bool"@,
        Ty::Bytes => "bytes"@,
        Ty::Ptr => "ptr"@,
        Ty::Byte => "byte"@,
        Ty::Int16 => "int16"@,
        Ty::Float => "float"@,
        Ty::CArray(a) => ty_spelling(a.elem) + seq!['['] + dec(a.count as nat) + seq![']'],
        Ty::Array(e) => elem_spelling(e) + seq!['[', ']'],
        Ty::AnyArray => "array"@,
        Ty::AnyElem => "element"@,
        Ty::Record(n) => n@,
        Ty::Dict(e) => elem_spelling(e) + seq!['{', '}'],
        Ty::AnyDict => "dictionary"@,
        Ty::Optional(e) => elem_spelling(e) + seq!['?'],
    }
}

pub open spec fn spec_from_keyword(s: Seq<char>) -> Option<Ty> {
    if s == "int"@ { Some(Ty::Int) }
    else if s == "int64"@ { Some(Ty::Int64) }
    else if s == "double"@ { Some(Ty::Double) }
    else if s == "text"@ { Some(Ty::Text) }
    else if s == "bool"@ { Some(Ty::Bool) }
    else if s == "bytes"@ { Some(Ty::Bytes) }
    else if s == "ptr"@ { Some(Ty::Ptr) }
    else { None }
}

pub open spec fn spec_surface(t: Ty) -> Ty {
    match t {
        Ty::Byte | Ty::Int16 => Ty::Int,
        Ty::Float => Ty::Double,
        other => other,
    }
}

pub open spec fn spec_c_size_align(t: Ty) -> Option<(i64, i64)> {
    match t {
        Ty::Byte => Some((1, 1)),
        Ty::Int16 => Some((2, 2)),
        Ty::Float => Some((4, 4)),
        Ty::Int => Some((4, 4)),
        Ty::Bool => Some((4, 4)),
        Ty::Int64 | Ty::Double => Some((8, 8)),
        Ty::Text | Ty::Ptr => Some((8, 8)),
        _ => None,
    }
}

/// Whether a type can be passed to or returned from C by value: the scalars
/// a `dll` signature and a callback subroutine share.
pub open spec fn c_representable(t: Ty) -> bool {
    t is Int || t is Int64 || t is Double || t is Bool || t is Text || t is Ptr
}

/// What a foreign function's parameter may be: a C scalar, or a record
/// (passed as a C struct).
pub open spec fn ffi_param(t: Ty) -> bool {
    c_representable(t) || t is Record
}

pub open spec fn spec_is_pointer(t: Ty) -> bool {
    t is Text || t is Bytes || t is Ptr || t is Array || t is AnyArray || t is AnyElem
        || t is Record || t is Dict || t is AnyDict
}

/// `OE_SDT_ARRAY_FLAG`, `OE_SDT_DICT_FLAG`, `OE_SDT_RECORD`, `OE_SDT_ALL`.
pub const SDT_ARRAY: i32 = 0x100;
pub const SDT_DICT: i32 = 0x200;
pub const SDT_RECORD: i32 = 13;
pub const SDT_ALL: i32 = 255;

/// The tag of a scalar (the element tags every aggregate tag is built on).
pub open spec fn scalar_tag(t: Ty) -> i32 {
    match t {
        Ty::Int => 3,
        Ty::Int64 => 4,
        Ty::Double => 6,
        Ty::Text => 9,
        Ty::Bool => 8,
        Ty::Bytes => 10,
        Ty::Ptr => 14,
        Ty::Byte | Ty::Int16 => 3,
        Ty::Float => 6,
        Ty::CArray(_) => 14,
        Ty::AnyElem => 255,
        Ty::Record(_) => 13,
        _ => 0,
    }
}

pub open spec fn spec_sdt_tag(t: Ty) -> i32 {
    match t {
        Ty::Optional(e) => scalar_tag(elem_ty(e)),
        Ty::Array(e) => SDT_ARRAY | scalar_tag(elem_ty(e)),
        Ty::AnyArray => SDT_ARRAY | SDT_ALL,
        Ty::Dict(e) => SDT_DICT | scalar_tag(elem_ty(e)),
        Ty::AnyDict => SDT_DICT | SDT_ALL,
        _ => scalar_tag(t),
    }
}

/// The type a tag names when no aggregate flag is set.
pub open spec fn spec_base_from_tag(tag: i32) -> Option<Ty> {
    if tag == 3 { Some(Ty::Int) }
    else if tag == 4 { Some(Ty::Int64) }
    else if tag == 6 { Some(Ty::Double) }
    else if tag == 9 { Some(Ty::Text) }
    else if tag == 8 { Some(Ty::Bool) }
    else if tag == 10 { Some(Ty::Bytes) }
    else if tag == 14 { Some(Ty::Ptr) }
    else if tag == SDT_ALL { Some(Ty::AnyElem) }
    else { None }
}

/// `from_sdt_tag`, followed to the depth given: each aggregate flag peeled
/// off costs one level, and there are two flags.
pub open spec fn spec_from_sdt_tag_at(tag: i32, depth: nat) -> Option<Ty>
    decreases depth,
{
    if tag == SDT_ARRAY | SDT_ALL {
        Some(Ty::AnyArray)
    } else if tag == SDT_DICT | SDT_ALL {
        Some(Ty::AnyDict)
    } else if tag & SDT_DICT != 0 {
        if depth == 0 { None } else {
            match spec_from_sdt_tag_at(tag & !SDT_DICT, (depth - 1) as nat) {
                Some(t) => match ty_elem(t) { Some(e) => Some(Ty::Dict(e)), None => None },
                None => None,
            }
        }
    } else if tag & SDT_ARRAY != 0 {
        if depth == 0 { None } else {
            match spec_from_sdt_tag_at(tag & !SDT_ARRAY, (depth - 1) as nat) {
                Some(t) => match ty_elem(t) { Some(e) => Some(Ty::Array(e)), None => None },
                None => None,
            }
        }
    } else {
        spec_base_from_tag(tag)
    }
}

/// Map an ABI `SDT_*` tag back to an IR type.
pub open spec fn spec_from_sdt_tag(tag: i32) -> Option<Ty> {
    spec_from_sdt_tag_at(tag, 2)
}

/// An element type's spelling.
fn elem_str(e: Elem) -> (r: &'static str)
    ensures
        r@ == elem_spelling(e),
{
    match e {
        Elem::Int => "int",
        Elem::Int64 => "int64",
        Elem::Double => "double",
        Elem::Text => "text",
        Elem::Bool => "bool",
        Elem::Record(n) => n,
    }
}

/// The tag of an element type.
fn elem_tag(e: Elem) -> (r: i32)
    ensures
        r == scalar_tag(elem_ty(e)),
{
    match e {
        Elem::Int => 3,
        Elem::Int64 => 4,
        Elem::Double => 6,
        Elem::Text => 9,
        Elem::Bool => 8,
        Elem::Record(_) => SDT_RECORD,
    }
}

impl Ty {
    /// The surface-syntax / spec spelling.
    pub fn as_str(self) -> (r: &'static str)
        ensures
            r@ == ty_spelling(self),
        decreases self,
    {
        match self {
            Ty::Int => "int",
            Ty::Int64 => "int64",
            Ty::Double => "double",
            Ty::Text => "text",
            Ty::Bool => "bool",
            Ty::Bytes => "bytes",
            Ty::Ptr => "ptr",
            Ty::Byte => "byte",
            Ty::Int16 => "int16",
            Ty::Float => "float",
            Ty::CArray(a) => {
                let mut s = text(a.elem.as_str());
                push_char(&mut s, '[');
                push_dec(&mut s, a.count as u64);
                push_char(&mut s, ']');
                assert(s@ =~= ty_spelling(self));
                intern(s.as_str())
            },
            Ty::Array(Elem::Int) => {
                proof { reveal_strlit("int"); reveal_strlit("int[]"); }
                assert("int[]"@ =~= "int"@ + seq!['[', ']']);
                "int[]"
            },
            Ty::Array(Elem::Int64) => {
                proof { reveal_strlit("int64"); reveal_strlit("int64[]"); }
                assert("int64[]"@ =~= "int64"@ + seq!['[', ']']);
                "int64[]"
            },
            Ty::Array(Elem::Double) => {
                proof { reveal_strlit("double"); reveal_strlit("double[]"); }
                assert("double[]"@ =~= "double"@ + seq!['[', ']']);
                "double[]"
            },
            Ty::Array(Elem::Text) => {
                proof { reveal_strlit("text"); reveal_strlit("text[]"); }
                assert("text[]"@ =~= "text"@ + seq!['[', ']']);
                "text[]"
            },
            Ty::Array(Elem::Bool) => {
                proof { reveal_strlit("bool"); reveal_strlit("bool[]"); }
                assert("bool[]"@ =~= "bool"@ + seq!['[', ']']);
                "bool[]"
            },
            Ty::AnyArray => "array",
            Ty::AnyElem => "element",
            Ty::Record(n) => n,
            Ty::Dict(e) => {
                let mut s = text(elem_str(e));
                push_char(&mut s, '{');
                push_char(&mut s, '}');
                assert(s@ =~= ty_spelling(self));
                intern(s.as_str())
            },
            Ty::AnyDict => "dictionary",
            Ty::Optional(e) => {
                let mut s = text(elem_str(e));
                push_char(&mut s, '?');
                assert(s@ =~= ty_spelling(self));
                intern(s.as_str())
            },
            Ty::Array(Elem::Record(n)) => {
                let mut s = text(n);
                push_char(&mut s, '[');
                push_char(&mut s, ']');
                assert(s@ =~= ty_spelling(self));
                intern(s.as_str())
            },
        }
    }

    /// Parse a type keyword; `None` if unknown.
    pub fn from_keyword(s: &str) -> (r: Option<Ty>)
        ensures
            r == spec_from_keyword(s@),
    {
        if str_eq(s, "int") { Some(Ty::Int) }
        else if str_eq(s, "int64") { Some(Ty::Int64) }
        else if str_eq(s, "double") { Some(Ty::Double) }
        else if str_eq(s, "text") { Some(Ty::Text) }
        else if str_eq(s, "bool") { Some(Ty::Bool) }
        else if str_eq(s, "bytes") { Some(Ty::Bytes) }
        else if str_eq(s, "ptr") { Some(Ty::Ptr) }
        else { None }
    }

    /// The type a value of this field type *appears as* in the language.
    pub fn surface(self) -> (r: Ty)
        ensures
            r == spec_surface(self),
    {
        match self {
            Ty::Byte | Ty::Int16 => Ty::Int,
            Ty::Float => Ty::Double,
            other => other,
        }
    }

    /// This field type's size and alignment in a C struct, on every 64-bit
    /// target; `None` for a type with no by-value C layout.
    pub fn c_size_align(self) -> (r: Option<(i64, i64)>)
        ensures
            r == spec_c_size_align(self),
    {
        match self {
            Ty::Byte => Some((1, 1)),
            Ty::Int16 => Some((2, 2)),
            Ty::Float => Some((4, 4)),
            Ty::Int => Some((4, 4)),
            Ty::Bool => Some((4, 4)),
            Ty::Int64 | Ty::Double => Some((8, 8)),
            Ty::Text | Ty::Ptr => Some((8, 8)),
            _ => None,
        }
    }

    /// Whether arithmetic operators (`+ - * /`) apply.
    pub fn is_numeric(self) -> (r: bool)
        ensures
            r == (self is Int || self is Int64 || self is Double),
    {
        matches!(self, Ty::Int | Ty::Int64 | Ty::Double)
    }

    /// What this array holds, or `None` if it is not one array in particular.
    pub fn elem(self) -> (r: Option<Elem>)
        ensures
            r == (match self { Ty::Array(e) => Some(e), _ => None::<Elem> }),
    {
        match self {
            Ty::Array(e) => Some(e),
            _ => None,
        }
    }

    /// What this dictionary holds, or `None` if it is not one dictionary in
    /// particular.
    pub fn value(self) -> (r: Option<Elem>)
        ensures
            r == (match self { Ty::Dict(e) => Some(e), _ => None::<Elem> }),
    {
        match self {
            Ty::Dict(e) => Some(e),
            _ => None,
        }
    }

    /// Whether a value of this type is a pointer in the slot's value union.
    pub fn is_pointer(self) -> (r: bool)
        ensures
            r == spec_is_pointer(self),
    {
        matches!(
            self,
            Ty::Text | Ty::Bytes | Ty::Ptr | Ty::Array(_) | Ty::AnyArray | Ty::AnyElem
                | Ty::Record(_) | Ty::Dict(_) | Ty::AnyDict
        )
    }

    /// The ABI `SDT_*` numeric tag.
    pub fn sdt_tag(self) -> (r: i32)
        ensures
            r == spec_sdt_tag(self),
    {
        match self {
            Ty::Int => 3,
            Ty::Int64 => 4,
            Ty::Double => 6,
            Ty::Text => 9,
            Ty::Bool => 8,
            Ty::Bytes => 10,
            Ty::Ptr => 14,
            Ty::Byte | Ty::Int16 => 3,
            Ty::Float => 6,
            Ty::CArray(_) => 14,
            Ty::Optional(e) => elem_tag(e),
            Ty::Array(e) => SDT_ARRAY | elem_tag(e),
            Ty::AnyArray => SDT_ARRAY | SDT_ALL,
            Ty::AnyElem => SDT_ALL,
            Ty::Record(_) => SDT_RECORD,
            Ty::Dict(e) => SDT_DICT | elem_tag(e),
            Ty::AnyDict => SDT_DICT | SDT_ALL,
        }
    }

    fn base_from_tag(tag: i32) -> (r: Option<Ty>)
        ensures
            r == spec_base_from_tag(tag),
    {
        if tag == 3 { Some(Ty::Int) }
        else if tag == 4 { Some(Ty::Int64) }
        else if tag == 6 { Some(Ty::Double) }
        else if tag == 9 { Some(Ty::Text) }
        else if tag == 8 { Some(Ty::Bool) }
        else if tag == 10 { Some(Ty::Bytes) }
        else if tag == 14 { Some(Ty::Ptr) }
        else if tag == SDT_ALL { Some(Ty::AnyElem) }
        else { None }
    }

    fn from_sdt_tag_at(tag: i32, depth: u8) -> (r: Option<Ty>)
        ensures
            r == spec_from_sdt_tag_at(tag, depth as nat),
        decreases depth,
    {
        if tag == SDT_ARRAY | SDT_ALL {
            return Some(Ty::AnyArray);
        }
        if tag == SDT_DICT | SDT_ALL {
            return Some(Ty::AnyDict);
        }
        if tag & SDT_DICT != 0 {
            if depth == 0 {
                return None;
            }
            return match Ty::from_sdt_tag_at(tag & !SDT_DICT, depth - 1) {
                Some(t) => match Elem::from_ty(t) { Some(e) => Some(Ty::Dict(e)), None => None },
                None => None,
            };
        }
        if tag & SDT_ARRAY != 0 {
            if depth == 0 {
                return None;
            }
            return match Ty::from_sdt_tag_at(tag & !SDT_ARRAY, depth - 1) {
                Some(t) => match Elem::from_ty(t) { Some(e) => Some(Ty::Array(e)), None => None },
                None => None,
            };
        }
        Ty::base_from_tag(tag)
    }

    /// Map an ABI `SDT_*` tag back to an IR type; `None` for tags not modeled
    /// (or `OE_SDT_NULL`, used for void returns).
    pub fn from_sdt_tag(tag: i32) -> (r: Option<Ty>)
        ensures
            r == spec_from_sdt_tag(tag),
    {
        Ty::from_sdt_tag_at(tag, 2)
    }
}

/// Whether a type is one the slot ABI carries under a tag of its own, so that
/// reading its tag back gives the type again: every scalar that crosses a
/// slot, the arrays and dictionaries of those, and the signature-only
/// "any" tags. Records share one tag among them all, and the layout-only and
/// local-only types never cross a slot.
pub open spec fn has_own_tag(t: Ty) -> bool {
    match t {
        Ty::Int | Ty::Int64 | Ty::Double | Ty::Text | Ty::Bool | Ty::Bytes | Ty::Ptr => true,
        Ty::AnyArray | Ty::AnyDict | Ty::AnyElem => true,
        Ty::Array(e) | Ty::Dict(e) => !(e is Record),
        _ => false,
    }
}

/// A tag read back names the type it was made from, for every type that has
/// a tag of its own.
pub proof fn law_sdt_tag_round_trip(t: Ty)
    requires
        has_own_tag(t),
    ensures
        spec_from_sdt_tag(spec_sdt_tag(t)) == Some(t),
{
    reveal_with_fuel(spec_from_sdt_tag_at, 3);
    assert(SDT_ARRAY | SDT_ALL == 0x1ff) by (bit_vector);
    assert(SDT_DICT | SDT_ALL == 0x2ff) by (bit_vector);
    match t {
        Ty::Array(e) => {
            let x = scalar_tag(elem_ty(e));
            assert(x == 3 || x == 4 || x == 6 || x == 9 || x == 8);
            assert((x == 3i32 || x == 4i32 || x == 6i32 || x == 9i32 || x == 8i32) ==> (
                (0x100i32 | x) & 0x200i32 == 0 && (0x100i32 | x) & 0x100i32 != 0
                && (0x100i32 | x) & !0x100i32 == x && (0x100i32 | x) != 0x1ffi32
                && (0x100i32 | x) != 0x2ffi32 && x & 0x200i32 == 0 && x & 0x100i32 == 0
                && x != 0x1ffi32 && x != 0x2ffi32)) by (bit_vector);
        },
        Ty::Dict(e) => {
            let x = scalar_tag(elem_ty(e));
            assert(x == 3 || x == 4 || x == 6 || x == 9 || x == 8);
            assert((x == 3i32 || x == 4i32 || x == 6i32 || x == 9i32 || x == 8i32) ==> (
                (0x200i32 | x) & 0x200i32 != 0
                && (0x200i32 | x) & !0x200i32 == x && (0x200i32 | x) != 0x1ffi32
                && (0x200i32 | x) != 0x2ffi32 && x & 0x200i32 == 0 && x & 0x100i32 == 0))
                by (bit_vector);
        },
        _ => {
            let x = spec_sdt_tag(t);
            assert((x == 3i32 || x == 4i32 || x == 6i32 || x == 9i32 || x == 8i32 || x == 10i32
                || x == 14i32 || x == 255i32) ==> (x & 0x200i32 == 0 && x & 0x100i32 == 0))
                by (bit_vector);
        },
    }
}


/// `b` is a copy of `a`: the same expression, part for part, with lists
/// of the same length whose elements are copies in turn.
pub open spec fn same_expr(a: Expr, b: Expr) -> bool
    decreases a,
{
    match (a, b) {
        (Expr::Bin(o1, l1, r1), Expr::Bin(o2, l2, r2)) => o1 == o2 && same_expr(*l1, *l2) && same_expr(*r1, *r2),
        (Expr::Call { cmd: c1, args: a1 }, Expr::Call { cmd: c2, args: a2 }) => c1 == c2 && same_exprs(a1@, a2@),
        (Expr::Cmp(o1, l1, r1), Expr::Cmp(o2, l2, r2)) => o1 == o2 && same_expr(*l1, *l2) && same_expr(*r1, *r2),
        (Expr::Chain { lo: l1, lo_op: p1, mid: m1, hi_op: q1, hi: h1 },
            Expr::Chain { lo: l2, lo_op: p2, mid: m2, hi_op: q2, hi: h2 }) =>
            p1 == p2 && q1 == q2 && same_expr(*l1, *l2) && same_expr(*m1, *m2) && same_expr(*h1, *h2),
        (Expr::In { needle: n1, haystack: h1, negated: g1 }, Expr::In { needle: n2, haystack: h2, negated: g2 }) =>
            g1 == g2 && same_expr(*n1, *n2) && same_expr(*h1, *h2),
        (Expr::ToText { value: v1, hole: h1 }, Expr::ToText { value: v2, hole: h2 }) => h1 == h2 && same_expr(*v1, *v2),
        (Expr::IfElse { cond: c1, then: t1, els: e1 }, Expr::IfElse { cond: c2, then: t2, els: e2 }) =>
            same_expr(*c1, *c2) && same_expr(*t1, *t2) && same_expr(*e1, *e2),
        (Expr::Otherwise { value: v1, fallback: f1 }, Expr::Otherwise { value: v2, fallback: f2 }) =>
            same_expr(*v1, *v2) && same_expr(*f1, *f2),
        (Expr::Comprehension { body: b1, elem: e1, value: v1, index: i1, coll: c1, cond: k1, holds: h1 },
            Expr::Comprehension { body: b2, elem: e2, value: v2, index: i2, coll: c2, cond: k2, holds: h2 }) => {
            &&& e1 == e2 && v1 == v2 && i1 == i2 && h1 == h2
            &&& same_expr(*b1, *b2) && same_expr(*c1, *c2)
            &&& match (k1, k2) {
                (Some(x), Some(y)) => same_expr(*x, *y),
                (None, None) => true,
                _ => false,
            }
        },
        (Expr::HasValue(x), Expr::HasValue(y)) => same_expr(*x, *y),
        (Expr::Unwrap(x), Expr::Unwrap(y)) => same_expr(*x, *y),
        (Expr::Logical(o1, l1, r1), Expr::Logical(o2, l2, r2)) => o1 == o2 && same_expr(*l1, *l2) && same_expr(*r1, *r2),
        (Expr::Not(x), Expr::Not(y)) => same_expr(*x, *y),
        (Expr::Bit(o1, l1, r1), Expr::Bit(o2, l2, r2)) => o1 == o2 && same_expr(*l1, *l2) && same_expr(*r1, *r2),
        (Expr::BitNot(x), Expr::BitNot(y)) => same_expr(*x, *y),
        (Expr::Index { base: b1, index: i1 }, Expr::Index { base: b2, index: i2 }) =>
            same_expr(*b1, *b2) && same_expr(*i1, *i2),
        (Expr::Slice { base: b1, from: f1, to: t1 }, Expr::Slice { base: b2, from: f2, to: t2 }) => {
            &&& same_expr(*b1, *b2)
            &&& match (f1, f2) {
                (Some(x), Some(y)) => same_expr(*x, *y),
                (None, None) => true,
                _ => false,
            }
            &&& match (t1, t2) {
                (Some(x), Some(y)) => same_expr(*x, *y),
                (None, None) => true,
                _ => false,
            }
        },
        (Expr::ArrayLit(x), Expr::ArrayLit(y)) => same_exprs(x@, y@),
        (Expr::RecordLit { name: n1, fields: f1 }, Expr::RecordLit { name: n2, fields: f2 }) =>
            n1 == n2 && same_fields(f1@, f2@),
        (Expr::RecordUpdate { name: n1, base: b1, fields: f1 }, Expr::RecordUpdate { name: n2, base: b2, fields: f2 }) =>
            n1 == n2 && same_expr(*b1, *b2) && same_fields(f1@, f2@),
        (Expr::Labeled { name: n1, value: v1 }, Expr::Labeled { name: n2, value: v2 }) => n1 == n2 && same_expr(*v1, *v2),
        (Expr::Field { base: b1, name: n1 }, Expr::Field { base: b2, name: n2 }) => n1 == n2 && same_expr(*b1, *b2),
        (Expr::DictLit(x), Expr::DictLit(y)) => same_pairs(x@, y@),
        (Expr::Neg(x), Expr::Neg(y)) => same_expr(*x, *y),
        (Expr::CallThrough { callee: c1, args: a1, ret: r1, conv: v1 },
            Expr::CallThrough { callee: c2, args: a2, ret: r2, conv: v2 }) =>
            r1 == r2 && v1 == v2 && same_expr(*c1, *c2) && same_exprs(a1@, a2@),
        _ => a == b,
    }
}

/// Each of `y` is a copy of the one of `x` in its place.
pub open spec fn same_exprs(x: Seq<Expr>, y: Seq<Expr>) -> bool
    decreases x,
{
    x.len() == y.len() && forall|i: int| 0 <= i < x.len() ==> same_expr(#[trigger] x[i], y[i])
}

/// Each named expression of `y` has the name of, and copies, the one of `x`
/// in its place.
pub open spec fn same_fields(x: Seq<(String, Expr)>, y: Seq<(String, Expr)>) -> bool
    decreases x,
{
    x.len() == y.len() && forall|i: int| 0 <= i < x.len() ==> (#[trigger] x[i]).0 == y[i].0 && same_expr(x[i].1, y[i].1)
}

/// Each pair of `y` copies the pair of `x` in its place.
pub open spec fn same_pairs(x: Seq<(Expr, Expr)>, y: Seq<(Expr, Expr)>) -> bool
    decreases x,
{
    x.len() == y.len() && forall|i: int| 0 <= i < x.len() ==> same_expr((#[trigger] x[i]).0, y[i].0) && same_expr(x[i].1, y[i].1)
}

/// A copy of an expression, part for part.
pub(crate) fn expr_dup(e: &Expr) -> (r: Expr)
    ensures
        same_expr(*e, r),
    decreases e,
{
    match e {
        Expr::IntLit(v) => Expr::IntLit(*v),
        Expr::BitsLit(v) => Expr::BitsLit(*v),
        Expr::DoubleLit(s) => Expr::DoubleLit(s.clone()),
        Expr::TextLit(s) => Expr::TextLit(s.clone()),
        Expr::Var(s) => Expr::Var(s.clone()),
        Expr::Bin(op, l, r) => Expr::Bin(*op, Box::new(expr_dup(l)), Box::new(expr_dup(r))),
        Expr::Call { cmd, args } => Expr::Call { cmd: cmd.clone(), args: exprs_dup(args) },
        Expr::GetProperty { component, property } => Expr::GetProperty {
            component: component.clone(),
            property: property.clone(),
        },
        Expr::BoolLit(b) => Expr::BoolLit(*b),
        Expr::Cmp(op, l, r) => Expr::Cmp(*op, Box::new(expr_dup(l)), Box::new(expr_dup(r))),
        Expr::Chain { lo, lo_op, mid, hi_op, hi } => Expr::Chain {
            lo: Box::new(expr_dup(lo)),
            lo_op: *lo_op,
            mid: Box::new(expr_dup(mid)),
            hi_op: *hi_op,
            hi: Box::new(expr_dup(hi)),
        },
        Expr::In { needle, haystack, negated } => Expr::In {
            needle: Box::new(expr_dup(needle)),
            haystack: Box::new(expr_dup(haystack)),
            negated: *negated,
        },
        Expr::ToText { value, hole } => Expr::ToText {
            value: Box::new(expr_dup(value)),
            hole: hole.clone(),
        },
        Expr::IfElse { cond, then, els } => Expr::IfElse {
            cond: Box::new(expr_dup(cond)),
            then: Box::new(expr_dup(then)),
            els: Box::new(expr_dup(els)),
        },
        Expr::Otherwise { value, fallback } => Expr::Otherwise {
            value: Box::new(expr_dup(value)),
            fallback: Box::new(expr_dup(fallback)),
        },
        Expr::Comprehension { body, elem, value, index, coll, cond, holds } => Expr::Comprehension {
            body: Box::new(expr_dup(body)),
            elem: elem.clone(),
            value: match value { Some(v) => Some(v.clone()), None => None },
            index: match index { Some(v) => Some(v.clone()), None => None },
            coll: Box::new(expr_dup(coll)),
            cond: match cond { Some(c) => Some(Box::new(expr_dup(c))), None => None },
            holds: *holds,
        },
        Expr::NoneLit => Expr::NoneLit,
        Expr::HasValue(x) => Expr::HasValue(Box::new(expr_dup(x))),
        Expr::Unwrap(x) => Expr::Unwrap(Box::new(expr_dup(x))),
        Expr::Logical(op, l, r) => Expr::Logical(*op, Box::new(expr_dup(l)), Box::new(expr_dup(r))),
        Expr::Not(x) => Expr::Not(Box::new(expr_dup(x))),
        Expr::Bit(op, l, r) => Expr::Bit(*op, Box::new(expr_dup(l)), Box::new(expr_dup(r))),
        Expr::BitNot(x) => Expr::BitNot(Box::new(expr_dup(x))),
        Expr::Index { base, index } => Expr::Index {
            base: Box::new(expr_dup(base)),
            index: Box::new(expr_dup(index)),
        },
        Expr::Slice { base, from, to } => Expr::Slice {
            base: Box::new(expr_dup(base)),
            from: match from { Some(f) => Some(Box::new(expr_dup(f))), None => None },
            to: match to { Some(t) => Some(Box::new(expr_dup(t))), None => None },
        },
        Expr::ArrayLit(items) => Expr::ArrayLit(exprs_dup(items)),
        Expr::RecordLit { name, fields } => Expr::RecordLit {
            name: name.clone(),
            fields: fields_dup(fields),
        },
        Expr::RecordUpdate { name, base, fields } => Expr::RecordUpdate {
            name: name.clone(),
            base: Box::new(expr_dup(base)),
            fields: fields_dup(fields),
        },
        Expr::Labeled { name, value } => Expr::Labeled {
            name: name.clone(),
            value: Box::new(expr_dup(value)),
        },
        Expr::Field { base, name } => Expr::Field {
            base: Box::new(expr_dup(base)),
            name: name.clone(),
        },
        Expr::DictLit(pairs) => Expr::DictLit(pairs_dup(pairs)),
        Expr::Neg(x) => Expr::Neg(Box::new(expr_dup(x))),
        Expr::AddressOf(s) => Expr::AddressOf(s.clone()),
        Expr::SizeOf(t) => Expr::SizeOf(*t),
        Expr::CallThrough { callee, args, ret, conv } => Expr::CallThrough {
            callee: Box::new(expr_dup(callee)),
            args: exprs_dup(args),
            ret: *ret,
            conv: *conv,
        },
        Expr::ZeroInit => Expr::ZeroInit,
    }
}

/// A copy of each expression, in order.
pub(crate) fn exprs_dup(v: &Vec<Expr>) -> (r: Vec<Expr>)
    ensures
        same_exprs(v@, r@),
    decreases v,
{
    let mut out: Vec<Expr> = Vec::new();
    let mut i: usize = 0;
    while i < v.len()
        invariant
            i <= v@.len(),
            out@.len() == i,
            forall|k: int| 0 <= k < i ==> same_expr(#[trigger] v@[k], out@[k]),
        decreases v@.len() - i,
    {
        out.push(expr_dup(&v[i]));
        i = i + 1;
    }
    out
}

/// A copy of each named expression, in order.
pub(crate) fn fields_dup(v: &Vec<(String, Expr)>) -> (r: Vec<(String, Expr)>)
    ensures
        same_fields(v@, r@),
    decreases v,
{
    let mut out: Vec<(String, Expr)> = Vec::new();
    let mut i: usize = 0;
    while i < v.len()
        invariant
            i <= v@.len(),
            out@.len() == i,
            forall|k: int| 0 <= k < i ==> (#[trigger] v@[k]).0 == out@[k].0 && same_expr(v@[k].1, out@[k].1),
        decreases v@.len() - i,
    {
        out.push((v[i].0.clone(), expr_dup(&v[i].1)));
        i = i + 1;
    }
    out
}

/// A copy of each pair of expressions, in order.
pub(crate) fn pairs_dup(v: &Vec<(Expr, Expr)>) -> (r: Vec<(Expr, Expr)>)
    ensures
        same_pairs(v@, r@),
    decreases v,
{
    let mut out: Vec<(Expr, Expr)> = Vec::new();
    let mut i: usize = 0;
    while i < v.len()
        invariant
            i <= v@.len(),
            out@.len() == i,
            forall|k: int| 0 <= k < i ==> same_expr((#[trigger] v@[k]).0, out@[k].0) && same_expr(v@[k].1, out@[k].1),
        decreases v@.len() - i,
    {
        out.push((expr_dup(&v[i].0), expr_dup(&v[i].1)));
        i = i + 1;
    }
    out
}

/// A command's signature: parameter slot types plus an optional return slot
/// (`None` = a void command, callable only as a statement).
#[derive(Debug, PartialEq)]
pub struct Signature {
    pub params: Vec<Ty>,
    pub ret: Option<Ty>,
    /// Parameter names, parallel to `params`; empty for a library command.
    pub names: Vec<String>,
    /// The default value of each parameter, parallel to `params`; `None` is a
    /// required one.
    pub defaults: Vec<Option<Expr>>,
}

impl Signature {
    /// A signature with types only: what a library command has.
    pub fn simple(params: Vec<Ty>, ret: Option<Ty>) -> (r: Signature)
        ensures
            r.params == params,
            r.ret == ret,
            r.names@.len() == 0,
            r.defaults@.len() == 0,
    {
        Signature { params, ret, names: Vec::new(), defaults: Vec::new() }
    }

    /// The 1-based position of the parameter called `name`.
    pub fn param_index(&self, name: &str) -> (r: Option<usize>)
        ensures
            r matches Some(i) ==> 1 <= i <= self.names@.len() && self.names@[i - 1]@ == name@
                && forall|k: int| 0 <= k < i - 1 ==> self.names@[k]@ != name@,
            r is None ==> forall|k: int| 0 <= k < self.names@.len() ==> self.names@[k]@ != name@,
    {
        let mut i: usize = 0;
        while i < self.names.len()
            invariant
                i <= self.names@.len(),
                forall|k: int| 0 <= k < i ==> self.names@[k]@ != name@,
            decreases self.names@.len() - i,
        {
            if str_eq(self.names[i].as_str(), name) {
                return Some(i + 1);
            }
            i = i + 1;
        }
        None
    }
}

/// Comparison operators. `=` is equality *in expression position*.
#[derive(Debug, Clone, Copy, PartialEq, Eq)]
pub enum CmpOp {
    Eq,
    Ne,
    Lt,
    Le,
    Gt,
    Ge,
}

impl CmpOp {
    pub fn symbol(self) -> (r: &'static str)
        ensures
            r@ == cmp_spelling(self),
    {
        match self {
            CmpOp::Eq => "=",
            CmpOp::Ne => "<>",
            CmpOp::Lt => "<",
            CmpOp::Le => "<=",
            CmpOp::Gt => ">",
            CmpOp::Ge => ">=",
        }
    }

    /// Ordering comparisons apply to numbers only; `=`/`<>` also apply to text.
    pub fn is_ordering(self) -> (r: bool)
        ensures
            r == !(self is Eq || self is Ne),
    {
        !matches!(self, CmpOp::Eq | CmpOp::Ne)
    }
}

/// How a comparison is spelled.
pub open spec fn cmp_spelling(op: CmpOp) -> Seq<char> {
    match op {
        CmpOp::Eq => "="@,
        CmpOp::Ne => "<>"@,
        CmpOp::Lt => "<"@,
        CmpOp::Le => "<="@,
        CmpOp::Gt => ">"@,
        CmpOp::Ge => ">="@,
    }
}

/// A comparison orders exactly when it is spelled neither `=` nor `<>`.
pub proof fn law_ordering_is_not_equality(op: CmpOp)
    ensures
        !(op is Eq || op is Ne) <==> !(cmp_spelling(op) == "="@ || cmp_spelling(op) == "<>"@),
{
    reveal_strlit("=");
    reveal_strlit("<>");
    reveal_strlit("<");
    reveal_strlit("<=");
    reveal_strlit(">");
    reveal_strlit(">=");
    assert("<"@[0] != "="@[0] && "<"@.len() != "<>"@.len());
    assert("<="@.len() != "="@.len() && "<="@[1] != "<>"@[1]);
    assert(">"@[0] != "="@[0] && ">"@.len() != "<>"@.len());
    assert(">="@.len() != "="@.len() && ">="@[0] != "<>"@[0]);
}

#[derive(Debug, Clone, Copy, PartialEq, Eq)]
pub enum LogicalOp {
    And,
    Or,
}

/// A bitwise operator, spelled as a word.
#[derive(Debug, Clone, Copy, PartialEq, Eq)]
pub enum BitOp {
    And,
    Or,
    Xor,
    Shl,
    Shr,
    Ushr,
}

/// The word a bitwise operator is written with.
pub open spec fn bit_word(op: BitOp) -> Seq<char> {
    match op {
        BitOp::And => "band"@,
        BitOp::Or => "bor"@,
        BitOp::Xor => "bxor"@,
        BitOp::Shl => "shl"@,
        BitOp::Shr => "shr"@,
        BitOp::Ushr => "ushr"@,
    }
}

impl BitOp {
    /// The word it is written with, for a diagnostic.
    pub fn word(self) -> (r: &'static str)
        ensures
            r@ == bit_word(self),
    {
        match self {
            BitOp::And => "band",
            BitOp::Or => "bor",
            BitOp::Xor => "bxor",
            BitOp::Shl => "shl",
            BitOp::Shr => "shr",
            BitOp::Ushr => "ushr",
        }
    }

    /// Shifts take a count on the right, not a second value.
    pub fn is_shift(self) -> (r: bool)
        ensures
            r == (self is Shl || self is Shr || self is Ushr),
    {
        matches!(self, BitOp::Shl | BitOp::Shr | BitOp::Ushr)
    }
}

#[derive(Debug, Clone, Copy, PartialEq, Eq)]
pub enum BinOp {
    Add,
    Sub,
    Mul,
    Div,
    Rem,
}

/// How an arithmetic operator is written.
pub open spec fn binop_char(op: BinOp) -> char {
    match op {
        BinOp::Add => '+',
        BinOp::Sub => '-',
        BinOp::Mul => '*',
        BinOp::Div => '/',
        BinOp::Rem => '%',
    }
}

impl BinOp {
    pub fn symbol(self) -> (r: char)
        ensures
            r == binop_char(self),
    {
        match self {
            BinOp::Add => '+',
            BinOp::Sub => '-',
            BinOp::Mul => '*',
            BinOp::Div => '/',
            BinOp::Rem => '%',
        }
    }
}

/// An expression. Every expression has a static `Ty`.
///
/// A floating-point literal is held as its decimal spelling (digits, a `.`,
/// digits, and a leading `-` when it was negated): the value it names is the
/// nearest IEEE double to that decimal, which the code generator computes.
#[derive(Debug, PartialEq)]
pub enum Expr {
    IntLit(i64),
    BitsLit(u64),
    DoubleLit(String),
    TextLit(String),
    Var(String),
    Bin(BinOp, Box<Expr>, Box<Expr>),
    Call { cmd: String, args: Vec<Expr> },
    GetProperty { component: String, property: String },
    BoolLit(bool),
    Cmp(CmpOp, Box<Expr>, Box<Expr>),
    Chain { lo: Box<Expr>, lo_op: CmpOp, mid: Box<Expr>, hi_op: CmpOp, hi: Box<Expr> },
    In { needle: Box<Expr>, haystack: Box<Expr>, negated: bool },
    ToText { value: Box<Expr>, hole: String },
    IfElse { cond: Box<Expr>, then: Box<Expr>, els: Box<Expr> },
    Otherwise { value: Box<Expr>, fallback: Box<Expr> },
    Comprehension {
        body: Box<Expr>,
        elem: String,
        value: Option<String>,
        index: Option<String>,
        coll: Box<Expr>,
        cond: Option<Box<Expr>>,
        holds: Option<Elem>,
    },
    NoneLit,
    HasValue(Box<Expr>),
    Unwrap(Box<Expr>),
    Logical(LogicalOp, Box<Expr>, Box<Expr>),
    Not(Box<Expr>),
    Bit(BitOp, Box<Expr>, Box<Expr>),
    BitNot(Box<Expr>),
    Index { base: Box<Expr>, index: Box<Expr> },
    Slice { base: Box<Expr>, from: Option<Box<Expr>>, to: Option<Box<Expr>> },
    ArrayLit(Vec<Expr>),
    RecordLit { name: String, fields: Vec<(String, Expr)> },
    RecordUpdate { name: String, base: Box<Expr>, fields: Vec<(String, Expr)> },
    Labeled { name: String, value: Box<Expr> },
    Field { base: Box<Expr>, name: String },
    DictLit(Vec<(Expr, Expr)>),
    Neg(Box<Expr>),
    AddressOf(String),
    SizeOf(Ty),
    CallThrough { callee: Box<Expr>, args: Vec<Expr>, ret: Option<Ty>, conv: Option<CallConv> },
    ZeroInit,
}

/// A source position: a 1-based line and 1-based **byte** columns, `end_col`
/// one past the last byte. All zero when the position is not known.
#[derive(Debug, Clone, Copy, PartialEq, Eq)]
pub struct Span {
    pub line: usize,
    pub col: usize,
    pub end_col: usize,
}

impl Default for Span {
    /// The unknown position: all zero.
    fn default() -> (r: Span)
        ensures
            r.line == 0 && r.col == 0 && r.end_col == 0,
    {
        Span { line: 0, col: 0, end_col: 0 }
    }
}

impl Span {
    pub fn new(line: usize, col: usize, end_col: usize) -> (r: Span)
        ensures
            r.line == line && r.col == col && r.end_col == end_col,
    {
        Span { line, col, end_col }
    }

    /// A whole line, when nothing narrower is known.
    pub fn line(line: usize) -> (r: Span)
        ensures
            r.line == line && r.col == 0 && r.end_col == 0,
    {
        Span { line, col: 0, end_col: 0 }
    }
}

/// An identifier as written: its spelling and where.
#[derive(Debug, Clone, PartialEq, Eq)]
pub struct Ident {
    pub name: String,
    pub span: Span,
}

/// A statement plus where it came from.
#[derive(Debug, PartialEq)]
pub struct Stmt {
    pub kind: StmtKind,
    /// 1-based source line; 0 when unknown.
    pub line: usize,
    /// The statement's header line.
    pub span: Span,
    /// Every identifier on the header line, in source order.
    pub idents: Vec<Ident>,
}

impl Stmt {
    pub fn new(kind: StmtKind, line: usize) -> (r: Stmt)
        ensures
            r.kind == kind,
            r.line == line,
            r.span == Span::line_spec(line),
            r.idents@.len() == 0,
    {
        Stmt { kind, line, span: Span::line(line), idents: Vec::new() }
    }

    /// Where `name` is written on this statement's header line, if it is.
    pub fn ident_span(&self, name: &str) -> (r: Option<Span>)
        ensures
            r matches Some(sp) ==> exists|k: int| 0 <= k < self.idents@.len()
                && self.idents@[k].name@ == name@ && self.idents@[k].span == sp
                && forall|j: int| 0 <= j < k ==> self.idents@[j].name@ != name@,
            r is None ==> forall|k: int| 0 <= k < self.idents@.len() ==> self.idents@[k].name@ != name@,
    {
        let mut i: usize = 0;
        while i < self.idents.len()
            invariant
                i <= self.idents@.len(),
                forall|k: int| 0 <= k < i ==> self.idents@[k].name@ != name@,
            decreases self.idents@.len() - i,
        {
            if str_eq(self.idents[i].name.as_str(), name) {
                return Some(self.idents[i].span);
            }
            i = i + 1;
        }
        None
    }
}

impl Span {
    pub open spec fn line_spec(line: usize) -> Span {
        Span { line, col: 0, end_col: 0 }
    }
}

/// A single statement inside a subroutine body.
#[derive(Debug, PartialEq)]
pub enum StmtKind {
    LetInfer { name: String, value: Expr, mutable: bool },
    Let { name: String, ty: Ty, value: Expr, mutable: bool },
    Assign { name: String, value: Expr },
    Call { cmd: String, args: Vec<Expr> },
    CallThrough { callee: Expr, args: Vec<Expr>, ret: Option<Ty>, conv: Option<CallConv> },
    SetIndex { name: String, index: Expr, value: Expr },
    SetProperty { component: String, property: String, value: Expr },
    SetPlace { place: Expr, value: Expr },
    If { arms: Vec<(Expr, Vec<Stmt>)>, otherwise: Option<Vec<Stmt>> },
    While { cond: Expr, body: Vec<Stmt> },
    Match { scrutinee: Expr, arms: Vec<(Vec<Expr>, Vec<Stmt>)>, otherwise: Option<Vec<Stmt>> },
    For { var: String, start: Expr, limit: Expr, step: i64, body: Vec<Stmt> },
    ForEach { elem: String, value: Option<String>, index: Option<String>, coll: Expr, body: Vec<Stmt> },
    Break,
    Continue,
    Return { value: Option<Expr> },
    IfSome { value: Expr, bind: String, body: Vec<Stmt>, otherwise: Option<Vec<Stmt>> },
    Defer(Box<Stmt>),
}

/// A subroutine.
#[derive(Debug, PartialEq)]
pub struct Sub {
    pub name: String,
    pub params: Vec<(String, Ty)>,
    pub defaults: Vec<Option<Expr>>,
    pub ret: Option<Ty>,
    pub conv: Option<CallConv>,
    pub line: usize,
    pub name_span: Span,
    pub body: Vec<Stmt>,
}

/// The parameter types and names of a parameter list.
fn signature_of(params: &Vec<(String, Ty)>, ret: Option<Ty>) -> (r: Signature)
    ensures
        r.params@.len() == params@.len(),
        r.names@.len() == params@.len(),
        r.defaults@.len() == 0,
        forall|k: int| 0 <= k < params@.len() ==> #[trigger] r.params@[k] == params@[k].1,
        forall|k: int| 0 <= k < params@.len() ==> #[trigger] r.names@[k]@ == params@[k].0@,
        r.ret == ret,
{
    let mut types: Vec<Ty> = Vec::new();
    let mut names: Vec<String> = Vec::new();
    let mut i: usize = 0;
    while i < params.len()
        invariant
            i <= params@.len(),
            types@.len() == i && names@.len() == i,
            forall|k: int| 0 <= k < i ==> #[trigger] types@[k] == params@[k].1,
            forall|k: int| 0 <= k < i ==> #[trigger] names@[k]@ == params@[k].0@,
        decreases params@.len() - i,
    {
        types.push(params[i].1);
        names.push(text(params[i].0.as_str()));
        i = i + 1;
    }
    Signature { params: types, ret, names, defaults: Vec::new() }
}

/// A copy of each default, in order.
fn defaults_dup(v: &Vec<Option<Expr>>) -> (r: Vec<Option<Expr>>)
    ensures
        r@.len() == v@.len(),
        forall|k: int| 0 <= k < v@.len() ==> (#[trigger] r@[k] is Some <==> v@[k] is Some),
{
    let mut out: Vec<Option<Expr>> = Vec::new();
    let mut i: usize = 0;
    while i < v.len()
        invariant
            i <= v@.len(),
            out@.len() == i,
            forall|k: int| 0 <= k < i ==> (#[trigger] out@[k] is Some <==> v@[k] is Some),
        decreases v@.len() - i,
    {
        let d = match &v[i] {
            Some(e) => Some(expr_dup(e)),
            None => None,
        };
        out.push(d);
        i = i + 1;
    }
    out
}

impl Sub {
    /// The sub's signature: its parameter types, names and defaults, and its
    /// return type.
    pub fn signature(&self) -> (r: Signature)
        ensures
            r.params@.len() == self.params@.len(),
            r.names@.len() == self.params@.len(),
            r.defaults@.len() == self.defaults@.len(),
            forall|k: int| 0 <= k < self.params@.len() ==> #[trigger] r.params@[k] == self.params@[k].1,
            forall|k: int| 0 <= k < self.params@.len() ==> #[trigger] r.names@[k]@ == self.params@[k].0@,
            forall|k: int| 0 <= k < self.defaults@.len() ==> (#[trigger] r.defaults@[k] is Some <==> self.defaults@[k] is Some),
            r.ret == self.ret,
    {
        let mut sig = signature_of(&self.params, self.ret);
        sig.defaults = defaults_dup(&self.defaults);
        sig
    }

    /// Whether this sub has the shape an entry point or an event handler
    /// needs: nothing in, nothing out.
    pub fn is_plain(&self) -> (r: bool)
        ensures
            r == (self.params@.len() == 0 && self.ret is None),
    {
        self.params.len() == 0 && self.ret.is_none()
    }
}

/// One component instance inside a form (or at module level).
#[derive(Debug, PartialEq)]
pub struct Component {
    pub component_type: String,
    pub id: String,
    pub properties: Vec<(String, Expr)>,
    pub handlers: Vec<(String, String)>,
    pub property_spans: Vec<Span>,
    pub handler_spans: Vec<Span>,
}

/// A form: the root component plus its children.
#[derive(Debug, PartialEq)]
pub struct Form {
    pub name: String,
    pub line_span: (usize, usize),
    pub properties: Vec<(String, Expr)>,
    pub handlers: Vec<(String, String)>,
    pub property_spans: Vec<Span>,
    pub handler_spans: Vec<Span>,
    pub children: Vec<Component>,
}

/// A top-level module item.
#[derive(Debug, PartialEq)]
pub enum Item {
    Sub(Sub),
    UserType(RecordDef),
    Form(Form),
    Component(Component),
    Var(GlobalVar),
    Dll(DllDecl),
    Const(ConstDef),
}

/// The C calling convention marker.
#[derive(Debug, Clone, Copy, PartialEq, Eq)]
pub enum CallConv {
    Cdecl,
    Stdcall,
    System,
}

pub open spec fn spec_call_conv_word(c: CallConv) -> Seq<char> {
    match c {
        CallConv::Cdecl => "cdecl"@,
        CallConv::Stdcall => "stdcall"@,
        CallConv::System => "system"@,
    }
}

pub open spec fn spec_call_conv_parse(w: Seq<char>) -> Option<CallConv> {
    if w == "cdecl"@ { Some(CallConv::Cdecl) }
    else if w == "stdcall"@ { Some(CallConv::Stdcall) }
    else if w == "system"@ { Some(CallConv::System) }
    else { None }
}

impl CallConv {
    /// Parse a convention marker word; `None` for anything that is not one.
    pub fn parse(word: &str) -> (r: Option<CallConv>)
        ensures
            r == spec_call_conv_parse(word@),
    {
        if str_eq(word, "cdecl") {
            Some(CallConv::Cdecl)
        } else if str_eq(word, "stdcall") {
            Some(CallConv::Stdcall)
        } else if str_eq(word, "system") {
            Some(CallConv::System)
        } else {
            None
        }
    }

    /// The marker word, as written in source.
    pub fn as_str(self) -> (r: &'static str)
        ensures
            r@ == spec_call_conv_word(self),
    {
        match self {
            CallConv::Cdecl => "cdecl",
            CallConv::Stdcall => "stdcall",
            CallConv::System => "system",
        }
    }
}

/// A convention's word parses back to that convention.
pub proof fn law_call_conv_round_trip(c: CallConv)
    ensures
        spec_call_conv_parse(spec_call_conv_word(c)) == Some(c),
{
    reveal_strlit("cdecl");
    reveal_strlit("stdcall");
    reveal_strlit("system");
    assert("cdecl"@.len() != "stdcall"@.len());
    assert("stdcall"@.len() != "system"@.len());
    assert("cdecl"@.len() != "system"@.len());
}

/// A foreign function declared for calling.
#[derive(Debug, Clone, PartialEq)]
pub struct DllDecl {
    pub name: String,
    pub params: Vec<(String, Ty)>,
    pub ret: Option<Ty>,
    pub library: String,
    pub symbol: Option<String>,
    pub conv: Option<CallConv>,
    pub line: usize,
    pub name_span: Span,
}

impl DllDecl {
    /// The foreign function's signature: its parameter types and names, and
    /// its return type. No parameter has a default: the function on the other
    /// side states none.
    pub fn signature(&self) -> (r: Signature)
        ensures
            r.params@.len() == self.params@.len(),
            r.names@.len() == self.params@.len(),
            r.defaults@.len() == self.params@.len(),
            forall|k: int| 0 <= k < self.params@.len() ==> #[trigger] r.params@[k] == self.params@[k].1,
            forall|k: int| 0 <= k < self.params@.len() ==> #[trigger] r.names@[k]@ == self.params@[k].0@,
            forall|k: int| 0 <= k < self.params@.len() ==> #[trigger] r.defaults@[k] is None,
            r.ret == self.ret,
    {
        let mut sig = signature_of(&self.params, self.ret);
        let mut k: usize = 0;
        while k < self.params.len()
            invariant
                k <= self.params@.len(),
                sig.defaults@.len() == k,
                forall|j: int| 0 <= j < k ==> #[trigger] sig.defaults@[j] is None,
                sig.params@.len() == self.params@.len(),
                sig.names@.len() == self.params@.len(),
                forall|j: int| 0 <= j < self.params@.len() ==> #[trigger] sig.params@[j] == self.params@[j].1,
                forall|j: int| 0 <= j < self.params@.len() ==> #[trigger] sig.names@[j]@ == self.params@[j].0@,
                sig.ret == self.ret,
            decreases self.params@.len() - k,
        {
            sig.defaults.push(None);
            k = k + 1;
        }
        sig
    }

    /// The exported symbol to resolve: the `as` override, or the name itself.
    pub fn symbol_name(&self) -> (r: &str)
        ensures
            r@ == (match self.symbol { Some(s) => s@, None => self.name@ }),
    {
        match &self.symbol {
            Some(s) => s.as_str(),
            None => self.name.as_str(),
        }
    }
}

/// A record type: a name for a group of related values.
#[derive(Debug, Clone, PartialEq)]
pub struct RecordDef {
    pub name: String,
    pub fields: Vec<(String, Ty)>,
    pub is_c: bool,
    pub line: usize,
}

impl RecordDef {
    /// The 1-based position of `name` among the fields, and its type.
    pub fn field(&self, name: &str) -> (r: Option<(usize, Ty)>)
        ensures
            r matches Some((i, t)) ==> 1 <= i <= self.fields@.len()
                && self.fields@[i - 1].0@ == name@ && self.fields@[i - 1].1 == t
                && forall|k: int| 0 <= k < i - 1 ==> self.fields@[k].0@ != name@,
            r is None ==> forall|k: int| 0 <= k < self.fields@.len() ==> self.fields@[k].0@ != name@,
    {
        let mut i: usize = 0;
        while i < self.fields.len()
            invariant
                i <= self.fields@.len(),
                forall|k: int| 0 <= k < i ==> self.fields@[k].0@ != name@,
            decreases self.fields@.len() - i,
        {
            if str_eq(self.fields[i].0.as_str(), name) {
                return Some((i + 1, self.fields[i].1));
            }
            i = i + 1;
        }
        None
    }
}

/// A named compile-time constant: `const NAME = LITERAL`.
#[derive(Debug, PartialEq)]
pub struct ConstDef {
    pub name: String,
    pub value: Expr,
    pub ty: Ty,
    pub line: usize,
    pub name_span: Span,
}

/// A module-level variable.
#[derive(Debug, PartialEq)]
pub struct GlobalVar {
    pub name: String,
    pub ty: Ty,
    pub value: Expr,
}

/// What a module is compiled into.
#[derive(Debug, Clone, Copy, PartialEq, Eq)]
pub enum Target {
    Console,
    Gui,
    SharedLib,
    StaticLib,
}

pub open spec fn spec_target_word(t: Target) -> Seq<char> {
    match t {
        Target::Console => "console"@,
        Target::Gui => "gui"@,
        Target::SharedLib => "sharedlib"@,
        Target::StaticLib => "staticlib"@,
    }
}

pub open spec fn spec_target_parse(s: Seq<char>) -> Option<Target> {
    if s == "console"@ { Some(Target::Console) }
    else if s == "gui"@ { Some(Target::Gui) }
    else if s == "sharedlib"@ || s == "shared"@ || s == "dll"@ || s == "so"@ { Some(Target::SharedLib) }
    else if s == "staticlib"@ || s == "static"@ { Some(Target::StaticLib) }
    else { None }
}

impl Target {
    pub fn as_str(self) -> (r: &'static str)
        ensures
            r@ == spec_target_word(self),
    {
        match self {
            Target::Console => "console",
            Target::Gui => "gui",
            Target::SharedLib => "sharedlib",
            Target::StaticLib => "staticlib",
        }
    }

    pub fn parse(s: &str) -> (r: Option<Target>)
        ensures
            r == spec_target_parse(s@),
    {
        if str_eq(s, "console") {
            Some(Target::Console)
        } else if str_eq(s, "gui") {
            Some(Target::Gui)
        } else if str_eq(s, "sharedlib") || str_eq(s, "shared") || str_eq(s, "dll") || str_eq(s, "so") {
            Some(Target::SharedLib)
        } else if str_eq(s, "staticlib") || str_eq(s, "static") {
            Some(Target::StaticLib)
        } else {
            None
        }
    }

    /// Does this target produce a program with an entry point?
    pub fn is_executable(self) -> (r: bool)
        ensures
            r == (self is Console || self is Gui),
    {
        matches!(self, Target::Console | Target::Gui)
    }

    /// The conventional file extension, or `""` for an executable.
    pub fn extension(self) -> (r: &'static str)
        ensures
            r@ == (match self {
                Target::Console | Target::Gui => ""@,
                Target::SharedLib => "so"@,
                Target::StaticLib => "a"@,
            }),
    {
        match self {
            Target::Console | Target::Gui => "",
            Target::SharedLib => "so",
            Target::StaticLib => "a",
        }
    }
}

/// A target's own word parses back to that target.
pub proof fn law_target_round_trip(t: Target)
    ensures
        spec_target_parse(spec_target_word(t)) == Some(t),
{
    reveal_strlit("console");
    reveal_strlit("gui");
    reveal_strlit("sharedlib");
    reveal_strlit("staticlib");
    reveal_strlit("shared");
    reveal_strlit("dll");
    reveal_strlit("so");
    reveal_strlit("static");
    assert("console"@[0] != "gui"@[0] && "console"@[0] != "sharedlib"@[0] && "console"@[0] != "shared"@[0]
        && "console"@[0] != "dll"@[0] && "console"@[0] != "so"@[0] && "console"@[0] != "staticlib"@[0]
        && "console"@[0] != "static"@[0]);
    assert("gui"@[0] != "sharedlib"@[0] && "gui"@[0] != "shared"@[0] && "gui"@[0] != "dll"@[0]
        && "gui"@[0] != "so"@[0] && "gui"@[0] != "staticlib"@[0] && "gui"@[0] != "static"@[0]);
    assert("sharedlib"@[1] != "staticlib"@[1] && "sharedlib"@[1] != "static"@[1]);
}

/// A whole compilation unit.
#[derive(Debug, PartialEq)]
pub struct Module {
    pub name: String,
    pub target: Option<Target>,
    pub uses: Vec<String>,
    pub items: Vec<Item>,
}

/// Whether the module declares a form.
pub open spec fn has_form(items: Seq<Item>) -> bool {
    exists|k: int| 0 <= k < items.len() && items[k] is Form
}

impl Module {
    /// The target to build, declared or inferred: a module with a form is a
    /// GUI program, otherwise a console one.
    pub fn target(&self) -> (r: Target)
        ensures
            r == (match self.target {
                Some(t) => t,
                None => if has_form(self.items@) { Target::Gui } else { Target::Console },
            }),
    {
        match self.target {
            Some(t) => t,
            None => if self.is_gui() { Target::Gui } else { Target::Console },
        }
    }

    /// A GUI module is one that declares a form.
    pub fn is_gui(&self) -> (r: bool)
        ensures
            r == has_form(self.items@),
    {
        let mut i: usize = 0;
        while i < self.items.len()
            invariant
                i <= self.items@.len(),
                forall|k: int| 0 <= k < i ==> !(self.items@[k] is Form),
            decreases self.items@.len() - i,
        {
            if matches!(self.items[i], Item::Form(_)) {
                return true;
            }
            i = i + 1;
        }
        false
    }

    /// The subroutines, in declaration order.
    pub fn subs(&self) -> (r: Vec<&Sub>)
        ensures
            r@.len() == item_subs(self.items@).len(),
            forall|k: int| 0 <= k < r@.len() ==> *r@[k] == item_subs(self.items@)[k],
    {
        let mut out: Vec<&Sub> = Vec::new();
        let mut i: usize = 0;
        while i < self.items.len()
            invariant
                i <= self.items@.len(),
                out@.len() == item_subs(self.items@.take(i as int)).len(),
                forall|k: int| 0 <= k < out@.len() ==> *out@[k] == item_subs(self.items@.take(i as int))[k],
            decreases self.items@.len() - i,
        {
            assert(self.items@.take(i + 1).drop_last() =~= self.items@.take(i as int));
            if let Item::Sub(s) = &self.items[i] {
                out.push(s);
            }
            i = i + 1;
        }
        assert(self.items@.take(i as int) =~= self.items@);
        out
    }

    /// The foreign-function declarations, in declaration order.
    pub fn dlls(&self) -> (r: Vec<&DllDecl>)
        ensures
            r@.len() == item_dlls(self.items@).len(),
            forall|k: int| 0 <= k < r@.len() ==> *r@[k] == item_dlls(self.items@)[k],
    {
        let mut out: Vec<&DllDecl> = Vec::new();
        let mut i: usize = 0;
        while i < self.items.len()
            invariant
                i <= self.items@.len(),
                out@.len() == item_dlls(self.items@.take(i as int)).len(),
                forall|k: int| 0 <= k < out@.len() ==> *out@[k] == item_dlls(self.items@.take(i as int))[k],
            decreases self.items@.len() - i,
        {
            assert(self.items@.take(i + 1).drop_last() =~= self.items@.take(i as int));
            if let Item::Dll(x) = &self.items[i] {
                out.push(x);
            }
            i = i + 1;
        }
        assert(self.items@.take(i as int) =~= self.items@);
        out
    }

    /// The module-level variables, in declaration order.
    pub fn globals(&self) -> (r: Vec<&GlobalVar>)
        ensures
            r@.len() == item_globals(self.items@).len(),
            forall|k: int| 0 <= k < r@.len() ==> *r@[k] == item_globals(self.items@)[k],
    {
        let mut out: Vec<&GlobalVar> = Vec::new();
        let mut i: usize = 0;
        while i < self.items.len()
            invariant
                i <= self.items@.len(),
                out@.len() == item_globals(self.items@.take(i as int)).len(),
                forall|k: int| 0 <= k < out@.len() ==> *out@[k] == item_globals(self.items@.take(i as int))[k],
            decreases self.items@.len() - i,
        {
            assert(self.items@.take(i + 1).drop_last() =~= self.items@.take(i as int));
            if let Item::Var(x) = &self.items[i] {
                out.push(x);
            }
            i = i + 1;
        }
        assert(self.items@.take(i as int) =~= self.items@);
        out
    }

    /// The record declarations, in declaration order.
    pub fn records(&self) -> (r: Vec<&RecordDef>)
        ensures
            r@.len() == item_records(self.items@).len(),
            forall|k: int| 0 <= k < r@.len() ==> *r@[k] == item_records(self.items@)[k],
    {
        let mut out: Vec<&RecordDef> = Vec::new();
        let mut i: usize = 0;
        while i < self.items.len()
            invariant
                i <= self.items@.len(),
                out@.len() == item_records(self.items@.take(i as int)).len(),
                forall|k: int| 0 <= k < out@.len() ==> *out@[k] == item_records(self.items@.take(i as int))[k],
            decreases self.items@.len() - i,
        {
            assert(self.items@.take(i + 1).drop_last() =~= self.items@.take(i as int));
            if let Item::UserType(x) = &self.items[i] {
                out.push(x);
            }
            i = i + 1;
        }
        assert(self.items@.take(i as int) =~= self.items@);
        out
    }

    /// The named constants, in declaration order.
    pub fn consts(&self) -> (r: Vec<&ConstDef>)
        ensures
            r@.len() == item_consts(self.items@).len(),
            forall|k: int| 0 <= k < r@.len() ==> *r@[k] == item_consts(self.items@)[k],
    {
        let mut out: Vec<&ConstDef> = Vec::new();
        let mut i: usize = 0;
        while i < self.items.len()
            invariant
                i <= self.items@.len(),
                out@.len() == item_consts(self.items@.take(i as int)).len(),
                forall|k: int| 0 <= k < out@.len() ==> *out@[k] == item_consts(self.items@.take(i as int))[k],
            decreases self.items@.len() - i,
        {
            assert(self.items@.take(i + 1).drop_last() =~= self.items@.take(i as int));
            if let Item::Const(x) = &self.items[i] {
                out.push(x);
            }
            i = i + 1;
        }
        assert(self.items@.take(i as int) =~= self.items@);
        out
    }

    /// The forms, in declaration order.
    pub fn forms(&self) -> (r: Vec<&Form>)
        ensures
            r@.len() == item_forms(self.items@).len(),
            forall|k: int| 0 <= k < r@.len() ==> *r@[k] == item_forms(self.items@)[k],
    {
        let mut out: Vec<&Form> = Vec::new();
        let mut i: usize = 0;
        while i < self.items.len()
            invariant
                i <= self.items@.len(),
                out@.len() == item_forms(self.items@.take(i as int)).len(),
                forall|k: int| 0 <= k < out@.len() ==> *out@[k] == item_forms(self.items@.take(i as int))[k],
            decreases self.items@.len() - i,
        {
            assert(self.items@.take(i + 1).drop_last() =~= self.items@.take(i as int));
            if let Item::Form(x) = &self.items[i] {
                out.push(x);
            }
            i = i + 1;
        }
        assert(self.items@.take(i as int) =~= self.items@);
        out
    }

    /// The module-level components, in declaration order.
    pub fn components(&self) -> (r: Vec<&Component>)
        ensures
            r@.len() == item_components(self.items@).len(),
            forall|k: int| 0 <= k < r@.len() ==> *r@[k] == item_components(self.items@)[k],
    {
        let mut out: Vec<&Component> = Vec::new();
        let mut i: usize = 0;
        while i < self.items.len()
            invariant
                i <= self.items@.len(),
                out@.len() == item_components(self.items@.take(i as int)).len(),
                forall|k: int| 0 <= k < out@.len() ==> *out@[k] == item_components(self.items@.take(i as int))[k],
            decreases self.items@.len() - i,
        {
            assert(self.items@.take(i + 1).drop_last() =~= self.items@.take(i as int));
            if let Item::Component(x) = &self.items[i] {
                out.push(x);
            }
            i = i + 1;
        }
        assert(self.items@.take(i as int) =~= self.items@);
        out
    }
}

/// The subroutines among `items`, in order.
pub open spec fn item_subs(items: Seq<Item>) -> Seq<Sub>
    decreases items.len(),
{
    if items.len() == 0 {
        Seq::empty()
    } else {
        let rest = item_subs(items.drop_last());
        match items.last() {
            Item::Sub(s) => rest.push(s),
            _ => rest,
        }
    }
}

/// The foreign-function declarations among `items`, in order.
pub open spec fn item_dlls(items: Seq<Item>) -> Seq<DllDecl>
    decreases items.len(),
{
    if items.len() == 0 {
        Seq::empty()
    } else {
        let rest = item_dlls(items.drop_last());
        match items.last() {
            Item::Dll(x) => rest.push(x),
            _ => rest,
        }
    }
}

/// The module-level variables among `items`, in order.
pub open spec fn item_globals(items: Seq<Item>) -> Seq<GlobalVar>
    decreases items.len(),
{
    if items.len() == 0 {
        Seq::empty()
    } else {
        let rest = item_globals(items.drop_last());
        match items.last() {
            Item::Var(x) => rest.push(x),
            _ => rest,
        }
    }
}

/// The record declarations among `items`, in order.
pub open spec fn item_records(items: Seq<Item>) -> Seq<RecordDef>
    decreases items.len(),
{
    if items.len() == 0 {
        Seq::empty()
    } else {
        let rest = item_records(items.drop_last());
        match items.last() {
            Item::UserType(x) => rest.push(x),
            _ => rest,
        }
    }
}

/// The named constants among `items`, in order.
pub open spec fn item_consts(items: Seq<Item>) -> Seq<ConstDef>
    decreases items.len(),
{
    if items.len() == 0 {
        Seq::empty()
    } else {
        let rest = item_consts(items.drop_last());
        match items.last() {
            Item::Const(x) => rest.push(x),
            _ => rest,
        }
    }
}

/// The forms among `items`, in order.
pub open spec fn item_forms(items: Seq<Item>) -> Seq<Form>
    decreases items.len(),
{
    if items.len() == 0 {
        Seq::empty()
    } else {
        let rest = item_forms(items.drop_last());
        match items.last() {
            Item::Form(x) => rest.push(x),
            _ => rest,
        }
    }
}

/// The module-level components among `items`, in order.
pub open spec fn item_components(items: Seq<Item>) -> Seq<Component>
    decreases items.len(),
{
    if items.len() == 0 {
        Seq::empty()
    } else {
        let rest = item_components(items.drop_last());
        match items.last() {
            Item::Component(x) => rest.push(x),
            _ => rest,
        }
    }
}

} // verus!
