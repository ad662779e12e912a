//! The calls the line-table loader makes into the object-file reader
//! (`object`) and the DWARF reader (`gimli`), and the reader state it threads
//! between them.
//!
//! The readers' own types are generic over traits of theirs, so each piece of
//! reader state the loader holds is a small struct of this crate with one
//! private field of the reader's type.
//! What a call hands back that the loader decides on is converted here, one
//! for one, into plain values: bytes, integers, flags.
//!
//! What the readers hand out is a function of the file's bytes, and of the
//! byte order the DWARF is read in: each value the loader holds carries, as
//! ghost state, the bytes it came from and how many steps its walk has
//! taken, and each call's result is stated as a name applied to those.

use object::{Object, ObjectSection, ObjectSymbol};
use vstd::prelude::*;
use vstd::utf8::encode_utf8;

verus! {

/// An error from `object` while reading the container.
#[verifier::external_type_specification]
#[verifier::external_body]
pub struct ExObjectError(object::read::Error);

/// An error from `gimli` while reading the DWARF.
#[verifier::external_type_specification]
#[verifier::external_body]
pub struct ExGimliError(gimli::Error);

/// An error from the operating system while opening or mapping a file.
#[verifier::external_type_specification]
#[verifier::external_body]
pub struct ExIoError(std::io::Error);

/// A parsed object file over the bytes of a built program.
#[verifier::external_body]
pub(crate) struct ObjectImage<'a> {
    file: object::read::File<'a>,
}

/// The DWARF sections of an object file, read with the file's byte order.
#[verifier::external_body]
pub(crate) struct DwarfData<'a> {
    dwarf: gimli::Dwarf<gimli::EndianSlice<'a, gimli::RunTimeEndian>>,
}

/// A walk over the unit headers in `.debug_info`.
#[verifier::external_body]
pub(crate) struct UnitCursor<'a> {
    iter: gimli::DebugInfoUnitHeadersIter<gimli::EndianSlice<'a, gimli::RunTimeEndian>>,
}

/// One unit header, not yet opened.
#[verifier::external_body]
pub(crate) struct HeaderData<'a> {
    header: gimli::UnitHeader<gimli::EndianSlice<'a, gimli::RunTimeEndian>>,
}

/// One opened compilation unit.
#[verifier::external_body]
pub(crate) struct UnitData<'a> {
    unit: gimli::Unit<gimli::EndianSlice<'a, gimli::RunTimeEndian>>,
}

/// A run of a unit's line-number program.
#[verifier::external_body]
pub(crate) struct LineCursor<'a> {
    rows: gimli::LineRows<
        gimli::EndianSlice<'a, gimli::RunTimeEndian>,
        gimli::IncompleteLineProgram<gimli::EndianSlice<'a, gimli::RunTimeEndian>>,
        usize,
    >,
}

/// A walk over an object file's symbol table.
#[verifier::external_body]
pub(crate) struct SymbolCursor<'a, 'f> {
    iter: object::read::SymbolIterator<'a, 'f>,
}

/// One row of a line-number program, as plain values.
pub struct LineEntry {
    pub address: u64,
    /// The line, or `None` where the program recorded none.
    pub line: Option<u64>,
    /// The column, or `None` for the left edge of the line.
    pub column: Option<u64>,
    pub is_stmt: bool,
    pub end_sequence: bool,
}

/// One symbol of an object file, as plain values.
pub struct SymbolEntry {
    /// Whether the symbol names code.
    pub is_text: bool,
    /// The symbol's name, or `None` where it could not be read.
    pub name: Option<String>,
    pub address: u64,
    pub size: u64,
}

/// The parsed object file over the bytes `bytes` of a built program.
pub(crate) struct Image<'a> {
    obj: ObjectImage<'a>,
    bytes: Ghost<Seq<u8>>,
}

impl<'a> Image<'a> {
    /// The bytes the file was parsed from.
    pub(crate) closed spec fn bytes(&self) -> Seq<u8> {
        self.bytes@
    }
}

/// The DWARF of the file `image`, read in the byte order `little` says.
pub(crate) struct Dwarf<'a> {
    dwarf: DwarfData<'a>,
    image: Ghost<Seq<u8>>,
    little: Ghost<bool>,
}

impl<'a> Dwarf<'a> {
    pub(crate) closed spec fn image(&self) -> Seq<u8> {
        self.image@
    }

    pub(crate) closed spec fn little(&self) -> bool {
        self.little@
    }
}

/// A walk over the unit headers of the DWARF of `image`, read in the byte
/// order `little`, that has taken `at` steps.
pub(crate) struct UnitWalk<'a> {
    cursor: UnitCursor<'a>,
    image: Ghost<Seq<u8>>,
    little: Ghost<bool>,
    at: Ghost<int>,
}

impl<'a> UnitWalk<'a> {
    pub(crate) closed spec fn image(&self) -> Seq<u8> {
        self.image@
    }

    pub(crate) closed spec fn little(&self) -> bool {
        self.little@
    }

    pub(crate) closed spec fn at(&self) -> int {
        self.at@
    }
}

/// The unit header the walk over the DWARF of `image` (byte order `little`)
/// handed out at its step `index`.
pub(crate) struct Header<'a> {
    header: HeaderData<'a>,
    image: Ghost<Seq<u8>>,
    little: Ghost<bool>,
    index: Ghost<int>,
}

impl<'a> Header<'a> {
    pub(crate) closed spec fn image(&self) -> Seq<u8> {
        self.image@
    }

    pub(crate) closed spec fn little(&self) -> bool {
        self.little@
    }

    pub(crate) closed spec fn index(&self) -> int {
        self.index@
    }
}

/// The unit that header `index` of the DWARF of `image` (byte order
/// `little`) introduces, opened.
pub(crate) struct Unit<'a> {
    unit: UnitData<'a>,
    image: Ghost<Seq<u8>>,
    little: Ghost<bool>,
    index: Ghost<int>,
}

impl<'a> Unit<'a> {
    pub(crate) closed spec fn image(&self) -> Seq<u8> {
        self.image@
    }

    pub(crate) closed spec fn little(&self) -> bool {
        self.little@
    }

    pub(crate) closed spec fn index(&self) -> int {
        self.index@
    }
}

/// A run of the line-number program of unit `unit` of the DWARF of `image`
/// (byte order `little`) that has taken `at` steps.
pub(crate) struct RowWalk<'a> {
    rows: LineCursor<'a>,
    image: Ghost<Seq<u8>>,
    little: Ghost<bool>,
    unit: Ghost<int>,
    at: Ghost<int>,
}

impl<'a> RowWalk<'a> {
    pub(crate) closed spec fn image(&self) -> Seq<u8> {
        self.image@
    }

    pub(crate) closed spec fn little(&self) -> bool {
        self.little@
    }

    pub(crate) closed spec fn unit(&self) -> int {
        self.unit@
    }

    pub(crate) closed spec fn at(&self) -> int {
        self.at@
    }
}

/// A walk over the symbol table of the file `image` that has taken `at`
/// steps.
pub(crate) struct SymbolWalk<'a, 'f> {
    cursor: SymbolCursor<'a, 'f>,
    image: Ghost<Seq<u8>>,
    at: Ghost<int>,
}

impl<'a, 'f> SymbolWalk<'a, 'f> {
    pub(crate) closed spec fn image(&self) -> Seq<u8> {
        self.image@
    }

    pub(crate) closed spec fn at(&self) -> int {
        self.at@
    }
}

/// Whether `object::read::File::parse` reads the bytes as an object file.
pub uninterp spec fn file_reads(image: Seq<u8>) -> bool;

/// What `Object::is_little_endian` says of the file the bytes hold.
pub uninterp spec fn file_is_little(image: Seq<u8>) -> bool;

/// What step `k` of `DebugInfoUnitHeadersIter::next`, over the DWARF of the
/// file read in byte order `little`, gives: `None` for an error,
/// `Some(false)` for the end, `Some(true)` for a header.
pub uninterp spec fn file_header(image: Seq<u8>, little: bool, k: int) -> Option<bool>;

/// Whether `Dwarf::unit` opens the unit header `k` introduces.
pub uninterp spec fn file_unit_opens(image: Seq<u8>, little: bool, k: int) -> bool;

/// Whether unit `k` has a line-number program.
pub uninterp spec fn file_unit_has_lines(image: Seq<u8>, little: bool, k: int) -> bool;

/// What reading unit `k`'s `DW_AT_producer` as text gives: `None` where its
/// root entry cannot be read, `Some(None)` where it has none,
/// `Some(Some(None))` where the value is no readable string, and the
/// string's bytes otherwise.
pub uninterp spec fn file_unit_producer(image: Seq<u8>, little: bool, k: int) -> Option<Option<Option<Seq<u8>>>>;

/// Unit `k`'s `name`, as bytes, where it records one.
pub uninterp spec fn file_unit_name(image: Seq<u8>, little: bool, k: int) -> Option<Seq<u8>>;

/// Unit `k`'s `comp_dir`, as bytes, where it records one.
pub uninterp spec fn file_unit_comp_dir(image: Seq<u8>, little: bool, k: int) -> Option<Seq<u8>>;

/// What step `j` of `LineRows::next_row` over unit `k`'s line-number program
/// gives: `None` for an error, `Some(None)` for the end, the row otherwise.
pub uninterp spec fn file_row(image: Seq<u8>, little: bool, k: int, j: int) -> Option<Option<LineEntry>>;

/// What step `j` of the walk over the file's symbol table gives: `None` at
/// its end, otherwise whether the symbol names code, its name where it can
/// be read, its address and its size.
pub uninterp spec fn file_symbol(image: Seq<u8>, j: int) -> Option<(bool, Option<Seq<char>>, u64, u64)>;

/// Calls `object::read::File::parse` on the bytes of a built program: `Ok`
/// exactly where it reads them as an object file.
#[verifier::external_body]
pub(crate) fn parse_object<'a>(data: &'a [u8]) -> (r: Result<Image<'a>, object::read::Error>)
    ensures
        r is Ok <==> file_reads(data@),
        r matches Ok(img) ==> img.bytes() == data@,
{
    match object::read::File::parse(data) {
        Ok(file) => Ok(Image { obj: ObjectImage { file }, bytes: Ghost(data@) }),
        Err(e) => Err(e),
    }
}

/// Calls `Object::is_little_endian` on the parsed file.
#[verifier::external_body]
pub(crate) fn is_little_endian(img: &Image) -> (r: bool)
    ensures
        r == file_is_little(img.bytes()),
{
    img.obj.file.is_little_endian()
}

/// Calls `Object::section_by_name` and, for a section that is there,
/// `ObjectSection::data`: `None` where the file has no section of that name.
#[verifier::external_body]
pub(crate) fn section_by_name<'a>(obj: &ObjectImage<'a>, name: &str) -> Option<Result<&'a [u8], object::read::Error>> {
    match obj.file.section_by_name(name) {
        Some(s) => Some(s.data()),
        None => None,
    }
}

/// Calls `gimli::DwarfSections::load`, which asks for each DWARF section by
/// its name, and `DwarfSections::borrow`, which reads each in the byte order
/// given. Each section's bytes come from `section_bytes`, a function of this
/// crate, which cannot fail, so neither can the load.
#[verifier::external_body]
pub(crate) fn load_dwarf<'a>(img: &Image<'a>, little: bool) -> (r: Dwarf<'a>)
    ensures
        r.image() == img.bytes(),
        r.little() == little,
{
    let endian = if little { gimli::RunTimeEndian::Little } else { gimli::RunTimeEndian::Big };
    let obj = &img.obj;
    let loaded = gimli::DwarfSections::load(|id: gimli::SectionId| {
        Ok::<&'a [u8], std::convert::Infallible>(crate::symbols::section_bytes(obj, id.name()))
    });
    let sections = match loaded {
        Ok(s) => s,
        Err(never) => match never {},
    };
    Dwarf { dwarf: DwarfData { dwarf: sections.borrow(|s| gimli::EndianSlice::new(s, endian)) }, image: img.bytes, little: Ghost(little) }
}

/// Calls `Dwarf::units`: a walk over the unit headers from the start.
#[verifier::external_body]
pub(crate) fn units<'a>(d: &Dwarf<'a>) -> (r: UnitWalk<'a>)
    ensures
        r.image() == d.image() && r.little() == d.little() && r.at() == 0,
{
    UnitWalk { cursor: UnitCursor { iter: d.dwarf.dwarf.units() }, image: d.image, little: d.little, at: Ghost(0) }
}

/// Calls `DebugInfoUnitHeadersIter::next`.
#[verifier::external_body]
pub(crate) fn next_header<'a>(w: &mut UnitWalk<'a>) -> (r: Result<Option<Header<'a>>, gimli::Error>)
    ensures
        final(w).image() == old(w).image() && final(w).little() == old(w).little(),
        final(w).at() == old(w).at() + 1,
        match r {
            Err(_) => file_header(old(w).image(), old(w).little(), old(w).at()) is None,
            Ok(None) => file_header(old(w).image(), old(w).little(), old(w).at()) == Some(false),
            Ok(Some(h)) => file_header(old(w).image(), old(w).little(), old(w).at()) == Some(true)
                && h.image() == old(w).image() && h.little() == old(w).little() && h.index() == old(w).at(),
        },
{
    let index = w.at;
    w.at = Ghost(w.at@ + 1);
    match w.cursor.iter.next() {
        Ok(Some(header)) => Ok(Some(Header { header: HeaderData { header }, image: w.image, little: w.little, index })),
        Ok(None) => Ok(None),
        Err(e) => Err(e),
    }
}

/// Calls `Dwarf::unit`, which opens the unit a header introduces.
#[verifier::external_body]
pub(crate) fn open_unit<'a>(d: &Dwarf<'a>, h: Header<'a>) -> (r: Result<Unit<'a>, gimli::Error>)
    requires
        h.image() == d.image() && h.little() == d.little(),
    ensures
        r is Ok <==> file_unit_opens(h.image(), h.little(), h.index()),
        r matches Ok(u) ==> u.image() == h.image() && u.little() == h.little() && u.index() == h.index(),
{
    match d.dwarf.dwarf.unit(h.header.header) {
        Ok(unit) => Ok(Unit { unit: UnitData { unit }, image: h.image, little: h.little, index: h.index }),
        Err(e) => Err(e),
    }
}

/// Reads the unit's `line_program` and calls `IncompleteLineProgram::rows`
/// on a copy of it: `None` where the unit has no line-number program.
#[verifier::external_body]
pub(crate) fn line_rows<'a>(u: &Unit<'a>) -> (r: Option<RowWalk<'a>>)
    ensures
        r is Some <==> file_unit_has_lines(u.image(), u.little(), u.index()),
        r matches Some(w) ==> w.image() == u.image() && w.little() == u.little() && w.unit() == u.index() && w.at() == 0,
{
    match u.unit.unit.line_program.clone() {
        Some(program) => Some(RowWalk { rows: LineCursor { rows: program.rows() }, image: u.image, little: u.little, unit: u.index, at: Ghost(0) }),
        None => None,
    }
}

/// Calls `Unit::entries` and `EntriesCursor::next_dfs` to reach the unit's
/// root entry, then `DebuggingInformationEntry::attr_value` for its
/// `DW_AT_producer` and `Dwarf::attr_string` for that value's text: the outer
/// `Err` is a failure to read the root entry, `None` a root entry that is
/// missing or carries no producer, and the inner `Err` a producer value that
/// is not a readable string.
#[verifier::external_body]
pub(crate) fn unit_producer(d: &Dwarf, u: &Unit) -> (r: Result<Option<Result<Vec<u8>, gimli::Error>>, gimli::Error>)
    requires
        u.image() == d.image() && u.little() == d.little(),
    ensures
        file_unit_producer(u.image(), u.little(), u.index()) == match r {
            Err(_) => None,
            Ok(None) => Some(None),
            Ok(Some(Err(_))) => Some(Some(None)),
            Ok(Some(Ok(b))) => Some(Some(Some(b@))),
        },
{
    let mut entries = u.unit.unit.entries();
    let value = match entries.next_dfs() {
        Ok(Some(root)) => root.attr_value(gimli::DW_AT_producer),
        Ok(None) => None,
        Err(e) => return Err(e),
    };
    match value {
        Some(v) => Ok(Some(match d.dwarf.dwarf.attr_string(&u.unit.unit, v) {
            Ok(s) => Ok(s.slice().to_vec()),
            Err(e) => Err(e),
        })),
        None => Ok(None),
    }
}

/// Reads the unit's `name` (`DW_AT_name`) as bytes.
#[verifier::external_body]
pub(crate) fn unit_name(u: &Unit) -> (r: Option<Vec<u8>>)
    ensures
        file_unit_name(u.image(), u.little(), u.index()) == match r {
            Some(b) => Some(b@),
            None => None,
        },
{
    match u.unit.unit.name {
        Some(s) => Some(s.slice().to_vec()),
        None => None,
    }
}

/// Reads the unit's `comp_dir` (`DW_AT_comp_dir`) as bytes.
#[verifier::external_body]
pub(crate) fn unit_comp_dir(u: &Unit) -> (r: Option<Vec<u8>>)
    ensures
        file_unit_comp_dir(u.image(), u.little(), u.index()) == match r {
            Some(b) => Some(b@),
            None => None,
        },
{
    match u.unit.unit.comp_dir {
        Some(s) => Some(s.slice().to_vec()),
        None => None,
    }
}

/// Calls `LineRows::next_row` and reads the row it yields through
/// `LineRow::address`, `line`, `column`, `is_stmt` and `end_sequence`.
#[verifier::external_body]
pub(crate) fn next_row(w: &mut RowWalk) -> (r: Result<Option<LineEntry>, gimli::Error>)
    ensures
        final(w).image() == old(w).image() && final(w).little() == old(w).little() && final(w).unit() == old(w).unit(),
        final(w).at() == old(w).at() + 1,
        file_row(old(w).image(), old(w).little(), old(w).unit(), old(w).at()) == match r {
            Err(_) => None,
            Ok(None) => Some(None),
            Ok(Some(e)) => Some(Some(e)),
        },
{
    w.at = Ghost(w.at@ + 1);
    match w.rows.rows.next_row() {
        Ok(Some((_, row))) => Ok(Some(LineEntry {
            address: row.address(),
            line: match row.line() { Some(l) => Some(l.get()), None => None },
            column: match row.column() {
                gimli::ColumnType::Column(n) => Some(n.get()),
                gimli::ColumnType::LeftEdge => None,
            },
            is_stmt: row.is_stmt(),
            end_sequence: row.end_sequence(),
        })),
        Ok(None) => Ok(None),
        Err(e) => Err(e),
    }
}

/// Calls `Object::symbols`: a walk over the symbol table from the start.
#[verifier::external_body]
pub(crate) fn symbols<'a, 'f>(img: &'f Image<'a>) -> (r: SymbolWalk<'a, 'f>)
    ensures
        r.image() == img.bytes() && r.at() == 0,
{
    SymbolWalk { cursor: SymbolCursor { iter: img.obj.file.symbols() }, image: img.bytes, at: Ghost(0) }
}

/// Calls `Iterator::next` on the symbol walk and reads the symbol it yields
/// through `ObjectSymbol::kind`, `name`, `address` and `size`.
#[verifier::external_body]
pub(crate) fn next_symbol(w: &mut SymbolWalk) -> (r: Option<SymbolEntry>)
    ensures
        final(w).image() == old(w).image(),
        final(w).at() == old(w).at() + 1,
        file_symbol(old(w).image(), old(w).at()) == match r {
            None => None,
            Some(s) => Some((s.is_text, match s.name { Some(n) => Some(n@), None => None }, s.address, s.size)),
        },
{
    w.at = Ghost(w.at@ + 1);
    match w.cursor.iter.next() {
        Some(s) => Some(SymbolEntry {
            is_text: s.kind() == object::SymbolKind::Text,
            name: match s.name() { Ok(n) => Some(n.to_string()), Err(_) => None },
            address: s.address(),
            size: s.size(),
        }),
        None => None,
    }
}

/// What `String::from_utf8_lossy` makes of some bytes.
pub uninterp spec fn utf8_lossy(b: Seq<u8>) -> Seq<char>;

/// Calls `String::from_utf8_lossy` and takes the text it gives. Bytes that are
/// UTF-8 come back as the text they encode.
#[verifier::external_body]
pub(crate) fn lossy_text(b: &[u8]) -> (r: String)
    ensures
        r@ == utf8_lossy(b@),
        forall|t: Seq<char>| #[trigger] encode_utf8(t) == b@ ==> r@ == t,
{
    String::from_utf8_lossy(b).into_owned()
}

} // verus!
