//! The region types an executable image hands to the address space, and a
//! parser for the container format that produces them.

use vstd::prelude::*;

verus! {

/// A load-time parse fault: malformed input is terminal, no partial result
/// is returned.
#[derive(Debug)]
pub enum Error {
    Magic([u8; 4]),
    FieldRead(&'static str),
    Bitness(u8),
    Endianness(u8),
}

/// The address width of the container: 32-bit or 64-bit fields.
#[derive(Debug, Clone, Copy, PartialEq, Eq, Structural)]
pub enum Bitness {
    Bits32,
    Bits64,
}

impl Bitness {
    /// Decode the class byte: 1 is 32-bit, 2 is 64-bit, anything else is a
    /// parse fault carrying the byte.
    pub fn try_from(val: u8) -> (r: Result<Bitness, Error>)
        ensures
            val == 1 ==> r == Ok::<Bitness, Error>(Bitness::Bits32),
            val == 2 ==> r == Ok::<Bitness, Error>(Bitness::Bits64),
            val != 1 && val != 2 ==> r == Err::<Bitness, Error>(Error::Bitness(val)),
    {
        match val {
            1 => Ok(Bitness::Bits32),
            2 => Ok(Bitness::Bits64),
            _ => Err(Error::Bitness(val)),
        }
    }
}

/// An address-width integer: 32 bits in a 32-bit image, 64 bits in a 64-bit
/// one.
#[derive(Debug, Clone, Copy, PartialEq, Eq, Structural)]
pub enum Usize {
    U32(u32),
    U64(u64),
}

impl Usize {
    /// The integer a `Usize` holds.
    pub open spec fn value(self) -> int {
        match self {
            Usize::U32(x) => x as int,
            Usize::U64(x) => x as int,
        }
    }

    /// The held integer, widened to 64 bits.
    pub fn to_u64(self) -> (r: u64)
        ensures
            r == self.value(),
    {
        match self {
            Usize::U32(x) => x as u64,
            Usize::U64(x) => x,
        }
    }

    /// The held integer as a machine address, truncated like an `as` cast.
    pub fn to_usize(self) -> (r: usize)
        ensures
            r == self.value() as usize,
    {
        match self {
            Usize::U32(x) => x as usize,
            Usize::U64(x) => x as usize,
        }
    }
}

/// The byte order of every multi-byte field of the container.
#[derive(Debug, Clone, Copy, PartialEq, Eq, Structural)]
pub enum Endianness {
    Little,
    Big,
}

impl Endianness {
    /// Decode the data-encoding byte: 1 is little-endian, 2 is big-endian,
    /// anything else is a parse fault carrying the byte.
    pub fn try_from(val: u8) -> (r: Result<Endianness, Error>)
        ensures
            val == 1 ==> r == Ok::<Endianness, Error>(Endianness::Little),
            val == 2 ==> r == Ok::<Endianness, Error>(Endianness::Big),
            val != 1 && val != 2 ==> r == Err::<Endianness, Error>(Error::Endianness(val)),
    {
        match val {
            1 => Ok(Endianness::Little),
            2 => Ok(Endianness::Big),
            _ => Err(Error::Endianness(val)),
        }
    }
}

/// The capability bits attached to a mapped region.
#[derive(Clone, Copy, Debug)]
pub struct Protection {
    pub r: bool,
    pub w: bool,
    pub x: bool,
}

impl Protection {
    /// A required capability set is satisfied iff every bit set in `required`
    /// is also set in `self`.
    pub open spec fn permits(self, required: Protection) -> bool {
        &&& required.r ==> self.r
        &&& required.w ==> self.w
        &&& required.x ==> self.x
    }
}

/// The protection decoded from the flag word of a program-table entry:
/// bit 0 = execute, bit 1 = write, bit 2 = read.
pub open spec fn decoded_protection(value: u32) -> Protection {
    Protection { r: value & 0b100 != 0, w: value & 0b010 != 0, x: value & 0b001 != 0 }
}

impl From<u32> for Protection {
    /// Decode the flag word of a program-table entry.
    fn from(value: u32) -> (p: Protection) {
        Protection { r: value & 0b100 != 0, w: value & 0b010 != 0, x: value & 0b001 != 0 }
    }
}

impl vstd::std_specs::convert::FromSpecImpl<u32> for Protection {
    open spec fn obeys_from_spec() -> bool {
        true
    }

    open spec fn from_spec(value: u32) -> Protection {
        decoded_protection(value)
    }
}

/// A contiguous mapped byte region: an owned buffer of bytes starting at a
/// virtual address. `data.len()` is the region's extent; there is no separate
/// capacity notion.
#[derive(Debug)]
pub struct Segment {
    pub start: usize,
    pub protection: Protection,
    pub data: Vec<u8>,
}

/// The mathematical value of a `Segment`: a start address and the bytes the
/// region holds. Contracts and lemmas speak of these.
pub ghost struct SegmentModel {
    pub start: int,
    pub protection: Protection,
    pub bytes: Seq<u8>,
}

impl SegmentModel {
    /// One past the last address the segment covers.
    pub open spec fn end(self) -> int {
        self.start + self.bytes.len()
    }

    /// Whether `addr` falls inside the half-open range `[start, end)`.
    pub open spec fn contains_addr(self, addr: int) -> bool {
        self.start <= addr < self.end()
    }
}

impl View for Segment {
    type V = SegmentModel;

    open spec fn view(&self) -> SegmentModel {
        SegmentModel { start: self.start as int, protection: self.protection, bytes: self.data@ }
    }
}

/// The mathematical values of a sequence of segments.
pub open spec fn models_of(segs: Seq<Segment>) -> Seq<SegmentModel> {
    segs.map_values(|s: Segment| s@)
}

/// An executable image, parsed: its entry address and its loadable regions.
#[derive(Debug)]
pub struct Elf {
    pub entry: Usize,
    pub segments: Vec<Segment>,
}

/// The value of a successful parse, at the specification level.
pub ghost struct ElfModel {
    pub entry: Usize,
    pub segments: Seq<SegmentModel>,
}

/// A parse fault, at the specification level; field names are character
/// sequences.
pub ghost enum ParseFault {
    Magic(Seq<u8>),
    FieldRead(Seq<char>),
    Bitness(u8),
    Endianness(u8),
}

/// Whether a reported fault is the stated one.
pub open spec fn matches_fault(e: Error, f: ParseFault) -> bool {
    match (e, f) {
        (Error::Magic(m), ParseFault::Magic(s)) => m@ == s,
        (Error::FieldRead(n), ParseFault::FieldRead(s)) => n@ == s,
        (Error::Bitness(b), ParseFault::Bitness(c)) => b == c,
        (Error::Endianness(b), ParseFault::Endianness(c)) => b == c,
        _ => false,
    }
}

/// How many bytes an address-width field takes.
pub open spec fn addr_width(bt: Bitness) -> int {
    match bt {
        Bitness::Bits32 => 4,
        Bitness::Bits64 => 8,
    }
}

/// How many bytes one program-table entry takes.
pub open spec fn entry_size(bt: Bitness) -> int {
    match bt {
        Bitness::Bits32 => 32,
        Bitness::Bits64 => 56,
    }
}

/// The integer held by `width` bytes at `off`, least significant byte first.
pub open spec fn le_value(b: Seq<u8>, off: int, width: int) -> int
    decreases width,
{
    if width <= 0 {
        0
    } else {
        b[off] + 256 * le_value(b, off + 1, width - 1)
    }
}

/// The integer held by `width` bytes at `off`, most significant byte first.
pub open spec fn be_value(b: Seq<u8>, off: int, width: int) -> int
    decreases width,
{
    if width <= 0 {
        0
    } else {
        be_value(b, off, width - 1) * 256 + b[off + width - 1]
    }
}

/// The integer held by a field, under the container's byte order.
pub open spec fn field_value(b: Seq<u8>, off: int, width: int, e: Endianness) -> int {
    match e {
        Endianness::Little => le_value(b, off, width),
        Endianness::Big => be_value(b, off, width),
    }
}

/// 256 to the `n`-th power: the number of values of an `n`-byte field.
pub open spec fn pow256(n: int) -> int
    decreases n,
{
    if n <= 0 {
        1
    } else {
        256 * pow256(n - 1)
    }
}

/// A field, however narrow, has at least one value.
proof fn lemma_pow256_pos(n: int)
    ensures
        1 <= pow256(n),
    decreases n,
{
    if n > 0 {
        lemma_pow256_pos(n - 1);
    }
}

/// A wider field has at least as many values.
proof fn lemma_pow256_mono(m: int, n: int)
    requires
        m <= n,
    ensures
        pow256(m) <= pow256(n),
        1 <= pow256(n),
    decreases n - m,
{
    lemma_pow256_pos(m);
    if m < n {
        lemma_pow256_mono(m, n - 1);
    }
}

/// A field of `width` bytes holds a value below `pow256(width)`.
proof fn lemma_field_value_bound(b: Seq<u8>, off: int, width: int, e: Endianness)
    ensures
        0 <= field_value(b, off, width, e) < pow256(width),
    decreases width,
{
    if width <= 0 {
    } else {
        lemma_field_value_bound(b, off + 1, width - 1, e);
        lemma_field_value_bound(b, off, width - 1, e);
        match e {
            Endianness::Little => {
                assert(b[off] < 256);
                assert(le_value(b, off + 1, width - 1) <= pow256(width - 1) - 1);
                assert(256 * le_value(b, off + 1, width - 1) <= 256 * (pow256(width - 1) - 1))
                    by (nonlinear_arith)
                    requires
                        le_value(b, off + 1, width - 1) <= pow256(width - 1) - 1,
                ;
            },
            Endianness::Big => {
                assert(b[off + width - 1] < 256);
                assert(be_value(b, off, width - 1) <= pow256(width - 1) - 1);
                assert(be_value(b, off, width - 1) * 256 <= (pow256(width - 1) - 1) * 256)
                    by (nonlinear_arith)
                    requires
                        be_value(b, off, width - 1) <= pow256(width - 1) - 1,
                ;
                assert(be_value(b, off, width - 1) >= 0);
                assert(be_value(b, off, width - 1) * 256 >= 0) by (nonlinear_arith)
                    requires
                        be_value(b, off, width - 1) >= 0,
                ;
            },
        }
    }
}

/// Read one field of up to eight bytes at `base + delta`. The fault names
/// the field that could not be read.
fn read_field(
    bytes: &[u8],
    base: usize,
    delta: usize,
    width: usize,
    endianness: Endianness,
    field: &'static str,
) -> (r: Result<u64, Error>)
    requires
        width <= 8,
    ensures
        base + delta + width <= bytes@.len() ==> (r matches Ok(v) && v == field_value(
            bytes@,
            base + delta,
            width as int,
            endianness,
        )),
        base + delta + width > bytes@.len() ==> r == Err::<u64, Error>(Error::FieldRead(field)),
{
    let n = bytes.len();
    let off = match base.checked_add(delta) {
        Some(o) => o,
        None => {
            return Err(Error::FieldRead(field));
        },
    };
    if off > n || width > n - off {
        return Err(Error::FieldRead(field));
    }
    proof {
        lemma_pow256_mono(0, 8);
    }
    let mut val: u64 = 0;
    match endianness {
        Endianness::Little => {
            let mut k: usize = width;
            while k > 0
                invariant
                    k <= width,
                    width <= 8,
                    off + width <= n,
                    n == bytes@.len(),
                    val == le_value(bytes@, off + k, width - k),
                decreases k,
            {
                k = k - 1;
                proof {
                    lemma_field_value_bound(bytes@, off + k + 1, width - k - 1, Endianness::Little);
                    lemma_pow256_mono(width - k - 1, 7);
                    assert(pow256(7) == 0x100000000000000) by {
                        assert(pow256(0) == 1);
                        assert(pow256(1) == 256);
                        assert(pow256(2) == 0x10000);
                        assert(pow256(3) == 0x1000000);
                        assert(pow256(4) == 0x100000000);
                        assert(pow256(5) == 0x10000000000);
                        assert(pow256(6) == 0x1000000000000);
                    }
                }
                val = (bytes[off + k] as u64) + 256 * val;
            }
        },
        Endianness::Big => {
            let mut k: usize = 0;
            while k < width
                invariant
                    k <= width,
                    width <= 8,
                    off + width <= n,
                    n == bytes@.len(),
                    val == be_value(bytes@, off as int, k as int),
                decreases width - k,
            {
                proof {
                    lemma_field_value_bound(bytes@, off as int, k as int, Endianness::Big);
                    lemma_pow256_mono(k as int, 7);
                    assert(pow256(7) == 0x100000000000000) by {
                        assert(pow256(0) == 1);
                        assert(pow256(1) == 256);
                        assert(pow256(2) == 0x10000);
                        assert(pow256(3) == 0x1000000);
                        assert(pow256(4) == 0x100000000);
                        assert(pow256(5) == 0x10000000000);
                        assert(pow256(6) == 0x1000000000000);
                    }
                }
                val = val * 256 + (bytes[off + k] as u64);
                k = k + 1;
            }
        },
    }
    Ok(val)
}

/// The header fields the loader uses.
pub ghost struct HeaderModel {
    pub bitness: Bitness,
    pub endianness: Endianness,
    pub entry: int,
    pub phoff: int,
    pub phnum: int,
}

/// The header parse: the magic, the class and encoding bytes, then the fixed
/// fields in order, with the first unreadable field named.
pub open spec fn spec_header(b: Seq<u8>) -> Result<HeaderModel, ParseFault> {
    if b.len() < 4 {
        Err(ParseFault::FieldRead("magic"@))
    } else if b.subrange(0, 4) != seq![0x7fu8, 0x45u8, 0x4cu8, 0x46u8] {
        Err(ParseFault::Magic(b.subrange(0, 4)))
    } else if b.len() < 5 {
        Err(ParseFault::FieldRead("bitness"@))
    } else if b[4] != 1 && b[4] != 2 {
        Err(ParseFault::Bitness(b[4]))
    } else if b.len() < 6 {
        Err(ParseFault::FieldRead("endianness"@))
    } else if b[5] != 1 && b[5] != 2 {
        Err(ParseFault::Endianness(b[5]))
    } else {
        let bt = if b[4] == 1 {
            Bitness::Bits32
        } else {
            Bitness::Bits64
        };
        let e = if b[5] == 1 {
            Endianness::Little
        } else {
            Endianness::Big
        };
        let w = addr_width(bt);
        if b.len() < 7 {
            Err(ParseFault::FieldRead("version"@))
        } else if b.len() < 8 {
            Err(ParseFault::FieldRead("abi"@))
        } else if b.len() < 9 {
            Err(ParseFault::FieldRead("abi version"@))
        } else if b.len() < 16 {
            Err(ParseFault::FieldRead("padding"@))
        } else if b.len() < 18 {
            Err(ParseFault::FieldRead("type"@))
        } else if b.len() < 20 {
            Err(ParseFault::FieldRead("machine"@))
        } else if b.len() < 24 {
            Err(ParseFault::FieldRead("ELF version"@))
        } else if b.len() < 24 + w {
            Err(ParseFault::FieldRead("entry"@))
        } else if b.len() < 24 + 2 * w {
            Err(ParseFault::FieldRead("program header offset"@))
        } else if b.len() < 24 + 3 * w {
            Err(ParseFault::FieldRead("section header offset"@))
        } else if b.len() < 28 + 3 * w {
            Err(ParseFault::FieldRead("flags"@))
        } else if b.len() < 30 + 3 * w {
            Err(ParseFault::FieldRead("ELF header size"@))
        } else if b.len() < 32 + 3 * w {
            Err(ParseFault::FieldRead("program header entry size"@))
        } else if b.len() < 34 + 3 * w {
            Err(ParseFault::FieldRead("program header entries"@))
        } else {
            Ok(
                HeaderModel {
                    bitness: bt,
                    endianness: e,
                    entry: field_value(b, 24, w, e),
                    phoff: field_value(b, 24 + w, w, e),
                    phnum: field_value(b, 32 + 3 * w, 2, e),
                },
            )
        }
    }
}

/// The fields of one program-table entry.
pub ghost struct EntryModel {
    pub seg_type: int,
    pub flags: int,
    pub offset: int,
    pub vaddr: int,
    pub filesz: int,
    pub memsz: int,
}

/// One program-table entry at `off`. The flags field sits after the type in
/// a 64-bit image and after the memory size in a 32-bit one.
pub open spec fn spec_entry(b: Seq<u8>, off: int, bt: Bitness, e: Endianness) -> Result<
    EntryModel,
    ParseFault,
> {
    match bt {
        Bitness::Bits64 => {
            if b.len() < off + 4 {
                Err(ParseFault::FieldRead("segment type"@))
            } else if b.len() < off + 8 {
                Err(ParseFault::FieldRead("segment flags for 64 bit"@))
            } else if b.len() < off + 16 {
                Err(ParseFault::FieldRead("segment offset"@))
            } else if b.len() < off + 24 {
                Err(ParseFault::FieldRead("segment virtual address"@))
            } else if b.len() < off + 32 {
                Err(ParseFault::FieldRead("segment physical address"@))
            } else if b.len() < off + 40 {
                Err(ParseFault::FieldRead("segment size in file"@))
            } else if b.len() < off + 48 {
                Err(ParseFault::FieldRead("segment size in memory"@))
            } else if b.len() < off + 56 {
                Err(ParseFault::FieldRead("segment alignment"@))
            } else {
                Ok(
                    EntryModel {
                        seg_type: field_value(b, off, 4, e),
                        flags: field_value(b, off + 4, 4, e),
                        offset: field_value(b, off + 8, 8, e),
                        vaddr: field_value(b, off + 16, 8, e),
                        filesz: field_value(b, off + 32, 8, e),
                        memsz: field_value(b, off + 40, 8, e),
                    },
                )
            }
        },
        Bitness::Bits32 => {
            if b.len() < off + 4 {
                Err(ParseFault::FieldRead("segment type"@))
            } else if b.len() < off + 8 {
                Err(ParseFault::FieldRead("segment offset"@))
            } else if b.len() < off + 12 {
                Err(ParseFault::FieldRead("segment virtual address"@))
            } else if b.len() < off + 16 {
                Err(ParseFault::FieldRead("segment physical address"@))
            } else if b.len() < off + 20 {
                Err(ParseFault::FieldRead("segment size in file"@))
            } else if b.len() < off + 24 {
                Err(ParseFault::FieldRead("segment size in memory"@))
            } else if b.len() < off + 28 {
                Err(ParseFault::FieldRead("segment flags for 32 bit"@))
            } else if b.len() < off + 32 {
                Err(ParseFault::FieldRead("segment alignment"@))
            } else {
                Ok(
                    EntryModel {
                        seg_type: field_value(b, off, 4, e),
                        flags: field_value(b, off + 24, 4, e),
                        offset: field_value(b, off + 4, 4, e),
                        vaddr: field_value(b, off + 8, 4, e),
                        filesz: field_value(b, off + 16, 4, e),
                        memsz: field_value(b, off + 20, 4, e),
                    },
                )
            }
        },
    }
}

/// `n` zero bytes.
pub open spec fn zero_bytes(n: int) -> Seq<u8> {
    Seq::new(n as nat, |i: int| 0u8)
}

/// Whether a program-table entry is kept: loadable, of non-zero memory size.
pub open spec fn keeps_entry(ent: EntryModel) -> bool {
    ent.seg_type == 1 && ent.memsz > 0
}

/// The bytes of a kept region: `filesz` bytes from `offset` in the
/// container, zero-filled up to the memory size; a region with no file bytes
/// is all zeroes.
pub open spec fn spec_segment_data(b: Seq<u8>, ent: EntryModel) -> Result<Seq<u8>, ParseFault> {
    if ent.filesz > 0 {
        if 0 <= ent.offset && ent.offset + ent.filesz <= b.len() {
            let file_part = b.subrange(ent.offset, ent.offset + ent.filesz);
            if ent.memsz > ent.filesz {
                Ok(file_part + zero_bytes(ent.memsz - ent.filesz))
            } else {
                Ok(file_part)
            }
        } else {
            Err(ParseFault::FieldRead("segment data"@))
        }
    } else {
        Ok(zero_bytes(ent.memsz))
    }
}

/// The region record a kept entry yields.
pub open spec fn record_of(ent: EntryModel, data: Seq<u8>) -> SegmentModel {
    SegmentModel {
        start: ((ent.vaddr as usize) as int),
        protection: decoded_protection(ent.flags as u32),
        bytes: data,
    }
}

/// The region records of `count` program-table entries from `off` on, in
/// order; the first fault aborts the parse.
pub open spec fn spec_entries(b: Seq<u8>, off: int, count: int, bt: Bitness, e: Endianness)
    -> Result<Seq<SegmentModel>, ParseFault>
    decreases count,
{
    if count <= 0 {
        Ok(Seq::empty())
    } else {
        match spec_entry(b, off, bt, e) {
            Err(f) => Err(f),
            Ok(ent) => {
                if keeps_entry(ent) {
                    match spec_segment_data(b, ent) {
                        Err(f) => Err(f),
                        Ok(data) => {
                            match spec_entries(b, off + entry_size(bt), count - 1, bt, e) {
                                Err(f) => Err(f),
                                Ok(rest) => Ok(seq![record_of(ent, data)] + rest),
                            }
                        },
                    }
                } else {
                    spec_entries(b, off + entry_size(bt), count - 1, bt, e)
                }
            },
        }
    }
}

/// The header, parsed into executable values.
struct Header {
    bitness: Bitness,
    endianness: Endianness,
    entry: u64,
    phoff: u64,
    phnum: u16,
}

/// Parse the container header.
fn parse_header(bytes: &[u8]) -> (r: Result<Header, Error>)
    ensures
        ({
            match spec_header(bytes@) {
                Ok(h) => r matches Ok(hd) && hd.bitness == h.bitness && hd.endianness
                    == h.endianness && hd.entry == h.entry && hd.phoff == h.phoff && hd.phnum
                    == h.phnum,
                Err(f) => r matches Err(e) && matches_fault(e, f),
            }
        }),
{
    if bytes.len() < 4 {
        return Err(Error::FieldRead("magic"));
    }
    let magic = [bytes[0], bytes[1], bytes[2], bytes[3]];
    proof {
        assert(magic@ =~= bytes@.subrange(0, 4));
    }
    if !(bytes[0] == 0x7f && bytes[1] == 0x45 && bytes[2] == 0x4c && bytes[3] == 0x46) {
        proof {
            assert(bytes@.subrange(0, 4) != seq![0x7fu8, 0x45u8, 0x4cu8, 0x46u8]) by {
                let lit = seq![0x7fu8, 0x45u8, 0x4cu8, 0x46u8];
                assert(lit[0] == 0x7f && lit[1] == 0x45 && lit[2] == 0x4c && lit[3] == 0x46);
                assert(bytes@.subrange(0, 4)[0] == bytes@[0]);
                assert(bytes@.subrange(0, 4)[1] == bytes@[1]);
                assert(bytes@.subrange(0, 4)[2] == bytes@[2]);
                assert(bytes@.subrange(0, 4)[3] == bytes@[3]);
            }
        }
        return Err(Error::Magic(magic));
    }
    proof {
        assert(bytes@.subrange(0, 4) =~= seq![0x7fu8, 0x45u8, 0x4cu8, 0x46u8]);
    }

    if bytes.len() < 5 {
        return Err(Error::FieldRead("bitness"));
    }
    let bitness = match Bitness::try_from(bytes[4]) {
        Ok(b) => b,
        Err(e) => {
            return Err(e);
        },
    };

    if bytes.len() < 6 {
        return Err(Error::FieldRead("endianness"));
    }
    let endianness = match Endianness::try_from(bytes[5]) {
        Ok(e) => e,
        Err(e) => {
            return Err(e);
        },
    };

    match read_field(bytes, 6, 0, 1, endianness, "version") {
        Ok(_) => {},
        Err(e) => {
            return Err(e);
        },
    }
    match read_field(bytes, 7, 0, 1, endianness, "abi") {
        Ok(_) => {},
        Err(e) => {
            return Err(e);
        },
    }
    match read_field(bytes, 8, 0, 1, endianness, "abi version") {
        Ok(_) => {},
        Err(e) => {
            return Err(e);
        },
    }
    match read_field(bytes, 9, 0, 7, endianness, "padding") {
        Ok(_) => {},
        Err(e) => {
            return Err(e);
        },
    }
    match read_field(bytes, 16, 0, 2, endianness, "type") {
        Ok(_) => {},
        Err(e) => {
            return Err(e);
        },
    }
    match read_field(bytes, 18, 0, 2, endianness, "machine") {
        Ok(_) => {},
        Err(e) => {
            return Err(e);
        },
    }
    match read_field(bytes, 20, 0, 4, endianness, "ELF version") {
        Ok(_) => {},
        Err(e) => {
            return Err(e);
        },
    }

    let w: usize = match bitness {
        Bitness::Bits32 => 4,
        Bitness::Bits64 => 8,
    };

    let entry = match read_field(bytes, 24, 0, w, endianness, "entry") {
        Ok(v) => v,
        Err(e) => {
            return Err(e);
        },
    };
    let phoff = match read_field(bytes, 24 + w, 0, w, endianness, "program header offset") {
        Ok(v) => v,
        Err(e) => {
            return Err(e);
        },
    };
    match read_field(bytes, 24 + 2 * w, 0, w, endianness, "section header offset") {
        Ok(_) => {},
        Err(e) => {
            return Err(e);
        },
    }
    match read_field(bytes, 24 + 3 * w, 0, 4, endianness, "flags") {
        Ok(_) => {},
        Err(e) => {
            return Err(e);
        },
    }
    match read_field(bytes, 28 + 3 * w, 0, 2, endianness, "ELF header size") {
        Ok(_) => {},
        Err(e) => {
            return Err(e);
        },
    }
    match read_field(bytes, 30 + 3 * w, 0, 2, endianness, "program header entry size") {
        Ok(_) => {},
        Err(e) => {
            return Err(e);
        },
    }
    let phnum = match read_field(bytes, 32 + 3 * w, 0, 2, endianness, "program header entries") {
        Ok(v) => v,
        Err(e) => {
            return Err(e);
        },
    };
    proof {
        lemma_field_value_bound(bytes@, 32 + 3 * w, 2, endianness);
        assert(pow256(2) == 0x10000) by {
            assert(pow256(0) == 1);
            assert(pow256(1) == 256);
        }
    }

    Ok(Header { bitness, endianness, entry, phoff, phnum: phnum as u16 })
}

/// One program-table entry, parsed into executable values.
struct RawEntry {
    seg_type: u32,
    flags: u32,
    offset: u64,
    vaddr: u64,
    filesz: u64,
    memsz: u64,
}

/// Parse the program-table entry at `off`.
fn parse_entry(bytes: &[u8], off: usize, bitness: Bitness, endianness: Endianness) -> (r: Result<
    RawEntry,
    Error,
>)
    ensures
        ({
            match spec_entry(bytes@, off as int, bitness, endianness) {
                Ok(m) => r matches Ok(ent) && ent.seg_type == m.seg_type && ent.flags == m.flags
                    && ent.offset == m.offset && ent.vaddr == m.vaddr && ent.filesz == m.filesz
                    && ent.memsz == m.memsz,
                Err(f) => r matches Err(e) && matches_fault(e, f),
            }
        }),
{
    proof {
        lemma_pow256_mono(4, 8);
        assert(pow256(4) == 0x100000000) by {
            assert(pow256(0) == 1);
            assert(pow256(1) == 256);
            assert(pow256(2) == 0x10000);
            assert(pow256(3) == 0x1000000);
        }
    }
    match bitness {
        Bitness::Bits64 => {
            let seg_type = match read_field(bytes, off, 0, 4, endianness, "segment type") {
                Ok(v) => v,
                Err(e) => {
                    return Err(e);
                },
            };
            let flags = match read_field(
                bytes,
                off,
                4,
                4,
                endianness,
                "segment flags for 64 bit",
            ) {
                Ok(v) => v,
                Err(e) => {
                    return Err(e);
                },
            };
            let offset = match read_field(bytes, off, 8, 8, endianness, "segment offset") {
                Ok(v) => v,
                Err(e) => {
                    return Err(e);
                },
            };
            let vaddr = match read_field(
                bytes,
                off,
                16,
                8,
                endianness,
                "segment virtual address",
            ) {
                Ok(v) => v,
                Err(e) => {
                    return Err(e);
                },
            };
            match read_field(bytes, off, 24, 8, endianness, "segment physical address") {
                Ok(_) => {},
                Err(e) => {
                    return Err(e);
                },
            }
            let filesz = match read_field(bytes, off, 32, 8, endianness, "segment size in file") {
                Ok(v) => v,
                Err(e) => {
                    return Err(e);
                },
            };
            let memsz = match read_field(bytes, off, 40, 8, endianness, "segment size in memory") {
                Ok(v) => v,
                Err(e) => {
                    return Err(e);
                },
            };
            match read_field(bytes, off, 48, 8, endianness, "segment alignment") {
                Ok(_) => {},
                Err(e) => {
                    return Err(e);
                },
            }
            proof {
                lemma_field_value_bound(bytes@, off as int, 4, endianness);
                lemma_field_value_bound(bytes@, off + 4, 4, endianness);
            }
            Ok(
                RawEntry {
                    seg_type: seg_type as u32,
                    flags: flags as u32,
                    offset,
                    vaddr,
                    filesz,
                    memsz,
                },
            )
        },
        Bitness::Bits32 => {
            let seg_type = match read_field(bytes, off, 0, 4, endianness, "segment type") {
                Ok(v) => v,
                Err(e) => {
                    return Err(e);
                },
            };
            let offset = match read_field(bytes, off, 4, 4, endianness, "segment offset") {
                Ok(v) => v,
                Err(e) => {
                    return Err(e);
                },
            };
            let vaddr = match read_field(
                bytes,
                off,
                8,
                4,
                endianness,
                "segment virtual address",
            ) {
                Ok(v) => v,
                Err(e) => {
                    return Err(e);
                },
            };
            match read_field(bytes, off, 12, 4, endianness, "segment physical address") {
                Ok(_) => {},
                Err(e) => {
                    return Err(e);
                },
            }
            let filesz = match read_field(bytes, off, 16, 4, endianness, "segment size in file") {
                Ok(v) => v,
                Err(e) => {
                    return Err(e);
                },
            };
            let memsz = match read_field(bytes, off, 20, 4, endianness, "segment size in memory") {
                Ok(v) => v,
                Err(e) => {
                    return Err(e);
                },
            };
            let flags = match read_field(
                bytes,
                off,
                24,
                4,
                endianness,
                "segment flags for 32 bit",
            ) {
                Ok(v) => v,
                Err(e) => {
                    return Err(e);
                },
            };
            match read_field(bytes, off, 28, 4, endianness, "segment alignment") {
                Ok(_) => {},
                Err(e) => {
                    return Err(e);
                },
            }
            proof {
                lemma_field_value_bound(bytes@, off as int, 4, endianness);
                lemma_field_value_bound(bytes@, off + 24, 4, endianness);
            }
            Ok(
                RawEntry {
                    seg_type: seg_type as u32,
                    flags: flags as u32,
                    offset,
                    vaddr,
                    filesz,
                    memsz,
                },
            )
        },
    }
}

/// Copy `len` bytes out of `bytes` starting at `off`.
fn slice_range(bytes: &[u8], off: usize, len: usize) -> (r: Vec<u8>)
    requires
        off + len <= bytes@.len(),
    ensures
        r@ == bytes@.subrange(off as int, off + len),
{
    let n = bytes.len();
    let mut out: Vec<u8> = Vec::new();
    let mut k: usize = 0;
    while k < len
        invariant
            k <= len,
            off + len <= n,
            n == bytes@.len(),
            out@ == bytes@.subrange(off as int, off + k),
        decreases len - k,
    {
        out.push(bytes[off + k]);
        proof {
            assert(out@ =~= bytes@.subrange(off as int, off + k + 1));
        }
        k = k + 1;
    }
    out
}

/// Append `n` zero bytes to `v`, in place.
fn zero_extend(v: &mut Vec<u8>, n: u64)
    ensures
        final(v)@ == old(v)@ + zero_bytes(n as int),
{
    let ghost orig: Seq<u8> = v@;
    let mut k: u64 = 0;
    while k < n
        invariant
            k <= n,
            v@ == orig + zero_bytes(k as int),
        decreases n - k,
    {
        v.push(0);
        proof {
            assert(v@ =~= orig + zero_bytes(k + 1));
        }
        k = k + 1;
    }
}

/// The whole parse: the header, then the program table it points at.
pub open spec fn spec_parse(b: Seq<u8>) -> Result<ElfModel, ParseFault> {
    match spec_header(b) {
        Err(f) => Err(f),
        Ok(h) => match spec_entries(b, h.phoff, h.phnum, h.bitness, h.endianness) {
            Err(f) => Err(f),
            Ok(segs) => Ok(
                ElfModel {
                    entry: match h.bitness {
                        Bitness::Bits32 => Usize::U32(h.entry as u32),
                        Bitness::Bits64 => Usize::U64(h.entry as u64),
                    },
                    segments: segs,
                },
            ),
        },
    }
}

/// Parse an executable image held in memory: its entry address and one
/// region record per loadable program-table entry of non-zero memory size.
/// Malformed input is a terminal fault; no partial result is returned.
pub fn parse_elf(bytes: &[u8]) -> (r: Result<Elf, Error>)
    ensures
        ({
            match spec_parse(bytes@) {
                Ok(m) => r matches Ok(elf) && elf.entry == m.entry && models_of(elf.segments@)
                    == m.segments,
                Err(f) => r matches Err(e) && matches_fault(e, f),
            }
        }),
{
    let header = match parse_header(bytes) {
        Ok(h) => h,
        Err(e) => {
            return Err(e);
        },
    };
    let ghost b = bytes@;
    let ghost hm = spec_header(b)->Ok_0;
    let esize: u64 = match header.bitness {
        Bitness::Bits32 => 32,
        Bitness::Bits64 => 56,
    };
    let phnum = header.phnum;
    let mut segments: Vec<Segment> = Vec::new();
    let mut k: u16 = 0;
    while k < phnum
        invariant
            b == bytes@,
            spec_header(b) == Ok::<HeaderModel, ParseFault>(hm),
            hm.bitness == header.bitness,
            hm.endianness == header.endianness,
            hm.phoff == header.phoff,
            hm.phnum == phnum,
            esize == entry_size(header.bitness),
            k <= phnum,
            ({
                match spec_entries(
                    b,
                    hm.phoff + k * esize,
                    phnum - k,
                    hm.bitness,
                    hm.endianness,
                ) {
                    Ok(rest) => spec_entries(b, hm.phoff, phnum as int, hm.bitness, hm.endianness)
                        == Ok::<Seq<SegmentModel>, ParseFault>(models_of(segments@) + rest),
                    Err(f) => spec_entries(b, hm.phoff, phnum as int, hm.bitness, hm.endianness)
                        == Err::<Seq<SegmentModel>, ParseFault>(f),
                }
            }),
        decreases phnum - k,
    {
        let ghost cur = hm.phoff + k * esize;
        let n_bytes = bytes.len();
        proof {
            assert(n_bytes == b.len());
            assert((k as u64) * esize <= 65535 * 56) by (nonlinear_arith)
                requires
                    k <= 65535,
                    esize <= 56,
            ;
        }
        let off64 = match header.phoff.checked_add((k as u64) * esize) {
            Some(o) => o,
            None => {
                proof {
                    assert(cur + 4 > b.len());
                }
                return Err(Error::FieldRead("segment type"));
            },
        };
        if off64 > bytes.len() as u64 {
            proof {
                assert(cur + 4 > b.len());
            }
            return Err(Error::FieldRead("segment type"));
        }
        let off = off64 as usize;
        let ent = match parse_entry(bytes, off, header.bitness, header.endianness) {
            Ok(x) => x,
            Err(e) => {
                return Err(e);
            },
        };
        let ghost em = spec_entry(b, cur, hm.bitness, hm.endianness)->Ok_0;
        if ent.seg_type == 1 && ent.memsz > 0 {
            let data: Vec<u8> = if ent.filesz > 0 {
                if ent.offset > bytes.len() as u64 || ent.filesz > bytes.len() as u64 - ent.offset {
                    proof {
                        assert(em.offset + em.filesz > b.len());
                    }
                    return Err(Error::FieldRead("segment data"));
                }
                let mut d = slice_range(bytes, ent.offset as usize, ent.filesz as usize);
                if ent.memsz > ent.filesz {
                    zero_extend(&mut d, ent.memsz - ent.filesz);
                }
                d
            } else {
                let mut d: Vec<u8> = Vec::new();
                zero_extend(&mut d, ent.memsz);
                proof {
                    assert(d@ =~= zero_bytes(em.memsz));
                }
                d
            };
            let segment = Segment {
                start: ent.vaddr as usize,
                protection: Protection::from(ent.flags as u32),
                data,
            };
            let ghost prev = segments@;
            segments.push(segment);
            proof {
                assert(segment@ == record_of(em, spec_segment_data(b, em)->Ok_0));
                assert(models_of(segments@) =~= models_of(prev) + seq![segment@]);
                assert(models_of(prev) + (seq![segment@] + spec_entries(
                    b,
                    cur + entry_size(hm.bitness),
                    phnum - k - 1,
                    hm.bitness,
                    hm.endianness,
                )->Ok_0) =~= models_of(segments@) + spec_entries(
                    b,
                    cur + entry_size(hm.bitness),
                    phnum - k - 1,
                    hm.bitness,
                    hm.endianness,
                )->Ok_0);
            }
        }
        k = k + 1;
    }
    proof {
        assert(spec_entries(b, hm.phoff + phnum * esize, 0, hm.bitness, hm.endianness)
            == Ok::<Seq<SegmentModel>, ParseFault>(Seq::empty()));
        assert(models_of(segments@) + Seq::<SegmentModel>::empty() =~= models_of(segments@));
    }
    let entry = match header.bitness {
        Bitness::Bits32 => {
            proof {
                lemma_field_value_bound(b, 24, 4, hm.endianness);
                assert(pow256(4) == 0x100000000) by {
                    assert(pow256(0) == 1);
                    assert(pow256(1) == 256);
                    assert(pow256(2) == 0x10000);
                    assert(pow256(3) == 0x1000000);
                }
            }
            Usize::U32(header.entry as u32)
        },
        Bitness::Bits64 => Usize::U64(header.entry),
    };
    Ok(Elf { entry, segments })
}

} // verus!
