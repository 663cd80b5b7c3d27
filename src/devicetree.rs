use vstd::prelude::*;

use byteorder::{BigEndian, ByteOrder};

use crate::error::GpioError;

verus! {

/// Bus address of the GPIO block as the SoC's own address space sees it.
pub const GPIO_CHILD_ADDRESS: u64 = 0x7e20_0000;

/// Address cells of the root node when its metadata entry is absent.
pub const DEFAULT_ADDRESS_CELLS: u32 = 2;

/// Address cells of the SoC node when its metadata entry is absent.
pub const DEFAULT_SOC_ADDRESS_CELLS: u32 = 2;

/// Size cells of the SoC node when its metadata entry is absent.
pub const DEFAULT_SOC_SIZE_CELLS: u32 = 1;

/// The unsigned number that a byte string denotes, most significant byte first.
pub open spec fn be_value(b: Seq<u8>) -> nat
    decreases b.len(),
{
    if b.len() == 0 {
        0
    } else {
        be_value(b.drop_last()) * 256 + b.last() as nat
    }
}

/// Relies on byteorder's `BigEndian::read_u32`: the four bytes at `at`, most significant first.
#[verifier::external_body]
fn read_be_u32(buf: &[u8], at: usize) -> (r: u32)
    requires
        at + 4 <= buf@.len(),
    ensures
        r as nat == be_value(buf@.subrange(at as int, at + 4)),
{
    BigEndian::read_u32(&buf[at..])
}

/// Relies on byteorder's `BigEndian::read_u64`: the eight bytes at `at`, most significant first.
#[verifier::external_body]
fn read_be_u64(buf: &[u8], at: usize) -> (r: u64)
    requires
        at + 8 <= buf@.len(),
    ensures
        r as nat == be_value(buf@.subrange(at as int, at + 8)),
{
    BigEndian::read_u64(&buf[at..])
}

/// One record of a ranges table: `length` bytes at `child` in the child bus
/// appear at `parent` in the parent bus.
#[derive(Clone, Copy, Debug, PartialEq, Eq, Structural)]
pub struct AddressRange {
    pub child: u64,
    pub parent: u64,
    pub length: u64,
}

/// A cell count that the ranges parser accepts: one or two 32-bit cells.
pub open spec fn valid_cells(cells: u32) -> bool {
    cells == 1 || cells == 2
}

/// The field of `cells` cells that starts at byte `at`.
pub open spec fn field_at(b: Seq<u8>, at: int, cells: u32) -> u64 {
    be_value(b.subrange(at, at + 4 * cells)) as u64
}

/// Byte width of one ranges record.
pub open spec fn record_width(c: u32, p: u32, l: u32) -> int {
    4 * (c + p + l)
}

/// The record held by the first bytes of `b`.
pub open spec fn record_of(b: Seq<u8>, c: u32, p: u32, l: u32) -> AddressRange {
    AddressRange {
        child: field_at(b, 0, c),
        parent: field_at(b, 4 * c, p),
        length: field_at(b, 4 * (c + p), l),
    }
}

/// The records of a ranges table, in order; trailing bytes too few for a
/// whole record are ignored.
pub open spec fn ranges_of(b: Seq<u8>, c: u32, p: u32, l: u32) -> Seq<AddressRange>
    decreases b.len(),
{
    let w = record_width(c, p, l);
    if w <= 0 || b.len() < w {
        Seq::empty()
    } else {
        seq![record_of(b, c, p, l)] + ranges_of(b.subrange(w, b.len() as int), c, p, l)
    }
}

/// What parsing a ranges table gives.
pub open spec fn parse_ranges_spec(b: Seq<u8>, c: u32, p: u32, l: u32) -> Result<
    Seq<AddressRange>,
    GpioError,
> {
    if valid_cells(c) && valid_cells(p) && valid_cells(l) {
        Ok(ranges_of(b, c, p, l))
    } else {
        Err(GpioError::MetadataParse)
    }
}

/// Reads a field of one or two cells at `at`.
fn read_field(buf: &[u8], at: usize, cells: u32) -> (r: u64)
    requires
        valid_cells(cells),
        at + 4 * cells <= buf@.len(),
    ensures
        r == field_at(buf@, at as int, cells),
{
    if cells == 1 {
        read_be_u32(buf, at) as u64
    } else {
        read_be_u64(buf, at)
    }
}

/// Parses a ranges table of records (child address, parent address, length)
/// whose fields are `child_size`, `parent_size` and `length_size` cells wide.
pub fn parse_ranges(bytes: &[u8], child_size: u32, parent_size: u32, length_size: u32) -> (r:
    Result<Vec<AddressRange>, GpioError>)
    ensures
        match r {
            Ok(v) => parse_ranges_spec(bytes@, child_size, parent_size, length_size) == Ok::<
                Seq<AddressRange>,
                GpioError,
            >(v@),
            Err(e) => parse_ranges_spec(bytes@, child_size, parent_size, length_size) == Err::<
                Seq<AddressRange>,
                GpioError,
            >(e),
        },
{
    if !(child_size == 1 || child_size == 2) || !(parent_size == 1 || parent_size == 2) || !(
    length_size == 1 || length_size == 2) {
        return Err(GpioError::MetadataParse);
    }
    let w: usize = (4 * (child_size + parent_size + length_size)) as usize;
    let ghost c = child_size;
    let ghost p = parent_size;
    let ghost l = length_size;
    let mut out: Vec<AddressRange> = Vec::new();
    let mut at: usize = 0;
    proof {
        assert(bytes@.subrange(0, bytes@.len() as int) =~= bytes@);
        assert(out@ + ranges_of(bytes@, c, p, l) =~= ranges_of(bytes@, c, p, l));
    }
    while bytes.len() - at >= w
        invariant
            valid_cells(c) && valid_cells(p) && valid_cells(l),
            c == child_size && p == parent_size && l == length_size,
            w == record_width(c, p, l),
            at <= bytes@.len(),
            out@ + ranges_of(bytes@.subrange(at as int, bytes@.len() as int), c, p, l)
                == ranges_of(bytes@, c, p, l),
        decreases bytes@.len() - at,
    {
        let ghost rest = bytes@.subrange(at as int, bytes@.len() as int);
        let ghost before = out@;
        let child = read_field(bytes, at, child_size);
        let parent = read_field(bytes, at + 4 * child_size as usize, parent_size);
        let length = read_field(
            bytes,
            at + 4 * (child_size + parent_size) as usize,
            length_size,
        );
        let rec = AddressRange { child, parent, length };
        proof {
            assert(rest.subrange(0, 4 * c as int) =~= bytes@.subrange(
                at as int,
                at + 4 * c,
            ));
            assert(rest.subrange(4 * c as int, 4 * c + 4 * p) =~= bytes@.subrange(
                at + 4 * c,
                at + 4 * c + 4 * p,
            ));
            assert(rest.subrange(4 * (c + p), 4 * (c + p) + 4 * l) =~= bytes@.subrange(
                at + 4 * (c + p),
                at + 4 * (c + p) + 4 * l,
            ));
            assert(rec == record_of(rest, c, p, l));
            assert(rest.subrange(w as int, rest.len() as int) =~= bytes@.subrange(
                at + w,
                bytes@.len() as int,
            ));
        }
        out.push(rec);
        at = at + w;
        proof {
            let tail = ranges_of(bytes@.subrange(at as int, bytes@.len() as int), c, p, l);
            assert(ranges_of(rest, c, p, l) == seq![rec] + tail);
            assert(out@ + tail =~= before + (seq![rec] + tail));
        }
    }
    proof {
        assert(ranges_of(bytes@.subrange(at as int, bytes@.len() as int), c, p, l) =~= Seq::<
            AddressRange,
        >::empty());
        assert(out@ + Seq::<AddressRange>::empty() =~= out@);
    }
    Ok(out)
}

/// What a cell-count entry gives: its first four bytes read big-endian,
/// or an error when it holds fewer.
pub open spec fn cells_spec(b: Seq<u8>) -> Result<u32, GpioError> {
    if b.len() < 4 {
        Err(GpioError::MetadataParse)
    } else {
        Ok(be_value(b.subrange(0, 4)) as u32)
    }
}

/// Reads a cell count (`#address-cells`, `#size-cells`) from the bytes of its
/// metadata entry.
pub fn parse_cells(bytes: &[u8]) -> (r: Result<u32, GpioError>)
    ensures
        r == cells_spec(bytes@),
{
    if bytes.len() < 4 {
        Err(GpioError::MetadataParse)
    } else {
        Ok(read_be_u32(bytes, 0))
    }
}

/// A cell count taken from its entry, or `default` when the entry is absent.
pub open spec fn cells_or_default(entry: Option<Seq<u8>>, default: u32) -> Result<u32, GpioError> {
    match entry {
        Some(b) => cells_spec(b),
        None => Ok(default),
    }
}

/// Whether `r` maps the child bus address `target`.
pub open spec fn covers(r: AddressRange, target: u64) -> bool {
    r.child <= target && target - r.child < r.length
}

/// The first record, in table order, that covers `target`.
pub open spec fn first_cover(rs: Seq<AddressRange>, target: u64) -> Option<AddressRange>
    decreases rs.len(),
{
    if rs.len() == 0 {
        None
    } else if covers(rs[0], target) {
        Some(rs[0])
    } else {
        first_cover(rs.subrange(1, rs.len() as int), target)
    }
}

/// Where `target` lies in the parent bus, through the record `r` that covers it.
pub open spec fn translate(r: AddressRange, target: u64) -> int {
    target - r.child + r.parent
}

/// The parent-bus address of `target` through the first covering record of `rs`.
pub open spec fn translate_spec(rs: Seq<AddressRange>, target: u64) -> Result<u64, GpioError> {
    match first_cover(rs, target) {
        None => Err(GpioError::AddressNotFound),
        Some(r) => if translate(r, target) <= u64::MAX {
            Ok(translate(r, target) as u64)
        } else {
            Err(GpioError::MetadataParse)
        },
    }
}

/// Translates the child-bus address `target` to the parent bus through the
/// first record of `ranges` that covers it.
pub fn translate_address(ranges: &Vec<AddressRange>, target: u64) -> (r: Result<u64, GpioError>)
    ensures
        r == translate_spec(ranges@, target),
{
    let mut i: usize = 0;
    assert(ranges@.subrange(0, ranges@.len() as int) =~= ranges@);
    while i < ranges.len()
        invariant
            i <= ranges@.len(),
            first_cover(ranges@, target) == first_cover(
                ranges@.subrange(i as int, ranges@.len() as int),
                target,
            ),
        decreases ranges@.len() - i,
    {
        let ghost rest = ranges@.subrange(i as int, ranges@.len() as int);
        let rec = ranges[i];
        assert(rest[0] == rec);
        if rec.child <= target && target - rec.child < rec.length {
            let offset = target - rec.child;
            if offset > u64::MAX - rec.parent {
                return Err(GpioError::MetadataParse);
            }
            return Ok(offset + rec.parent);
        }
        assert(rest.subrange(1, rest.len() as int) =~= ranges@.subrange(
            i + 1,
            ranges@.len() as int,
        ));
        i = i + 1;
    }
    Err(GpioError::AddressNotFound)
}

/// The platform metadata that address resolution reads; `None` where an
/// entry is absent.
pub struct DeviceTree {
    /// `#address-cells` of the root node.
    pub address_cells: Option<Vec<u8>>,
    /// `#address-cells` of the SoC node.
    pub soc_address_cells: Option<Vec<u8>>,
    /// `#size-cells` of the SoC node.
    pub soc_size_cells: Option<Vec<u8>>,
    /// `ranges` of the SoC node.
    pub ranges: Option<Vec<u8>>,
}

/// The bytes of an optional entry.
pub open spec fn entry_view(e: Option<Vec<u8>>) -> Option<Seq<u8>> {
    match e {
        Some(v) => Some(v@),
        None => None,
    }
}

/// The physical base of the peripheral block that `dt` describes.
pub open spec fn peripheral_base_spec(dt: DeviceTree) -> Result<u64, GpioError> {
    match cells_or_default(entry_view(dt.address_cells), DEFAULT_ADDRESS_CELLS) {
        Err(e) => Err(e),
        Ok(address_cells) => match cells_or_default(
            entry_view(dt.soc_address_cells),
            DEFAULT_SOC_ADDRESS_CELLS,
        ) {
            Err(e) => Err(e),
            Ok(soc_address_cells) => match cells_or_default(
                entry_view(dt.soc_size_cells),
                DEFAULT_SOC_SIZE_CELLS,
            ) {
                Err(e) => Err(e),
                Ok(soc_size_cells) => match entry_view(dt.ranges) {
                    None => Err(GpioError::MetadataParse),
                    Some(b) => match parse_ranges_spec(
                        b,
                        soc_address_cells,
                        address_cells,
                        soc_size_cells,
                    ) {
                        Err(e) => Err(e),
                        Ok(rs) => translate_spec(rs, GPIO_CHILD_ADDRESS),
                    },
                },
            },
        },
    }
}

/// Reads a cell count from its entry, falling back to `default` when absent.
fn cells_entry(entry: &Option<Vec<u8>>, default: u32) -> (r: Result<u32, GpioError>)
    ensures
        r == cells_or_default(entry_view(*entry), default),
{
    match entry {
        Some(b) => parse_cells(b.as_slice()),
        None => Ok(default),
    }
}

/// Resolves the physical address of the GPIO block from the platform metadata:
/// the SoC's ranges table, parsed with the cell counts of the root and SoC
/// nodes, translates the GPIO block's bus address to the parent bus.
pub fn find_host_peripheral_address(dt: &DeviceTree) -> (r: Result<u64, GpioError>)
    ensures
        r == peripheral_base_spec(*dt),
{
    let address_cells = match cells_entry(&dt.address_cells, DEFAULT_ADDRESS_CELLS) {
        Ok(n) => n,
        Err(e) => return Err(e),
    };
    let soc_address_cells = match cells_entry(&dt.soc_address_cells, DEFAULT_SOC_ADDRESS_CELLS) {
        Ok(n) => n,
        Err(e) => return Err(e),
    };
    let soc_size_cells = match cells_entry(&dt.soc_size_cells, DEFAULT_SOC_SIZE_CELLS) {
        Ok(n) => n,
        Err(e) => return Err(e),
    };
    let bytes = match &dt.ranges {
        Some(b) => b,
        None => return Err(GpioError::MetadataParse),
    };
    let ranges = match parse_ranges(bytes.as_slice(), soc_address_cells, address_cells, soc_size_cells) {
        Ok(rs) => rs,
        Err(e) => return Err(e),
    };
    translate_address(&ranges, GPIO_CHILD_ADDRESS)
}

/// Translation fails with `AddressNotFound` exactly when no record of the
/// table covers the target address.
pub proof fn lemma_not_found_iff_uncovered(rs: Seq<AddressRange>, target: u64)
    ensures
        translate_spec(rs, target) == Err::<u64, GpioError>(GpioError::AddressNotFound) <==> forall|
            i: int,
        |
            0 <= i < rs.len() ==> !covers(#[trigger] rs[i], target),
    decreases rs.len(),
{
    if rs.len() > 0 {
        let rest = rs.subrange(1, rs.len() as int);
        lemma_not_found_iff_uncovered(rest, target);
        if !covers(rs[0], target) {
            if forall|i: int| 0 <= i < rest.len() ==> !covers(#[trigger] rest[i], target) {
                assert forall|i: int| 0 <= i < rs.len() implies !covers(#[trigger] rs[i], target) by {
                    if i > 0 {
                        assert(rs[i] == rest[i - 1]);
                    }
                }
            } else {
                let k = choose|k: int| 0 <= k < rest.len() && covers(#[trigger] rest[k], target);
                assert(rs[k + 1] == rest[k]);
            }
        }
    }
}

} // verus!
