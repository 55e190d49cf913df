//! Header codec for the newc cpio format.
//!
//! A newc header is a fixed 110-byte record of fixed-width ASCII fields, most
//! of them hexadecimal. This module decodes such a record, parses its numeric
//! fields, derives the two alignment paddings the format requires, and
//! synthesizes the terminating sentinel header.

use vstd::prelude::*;
use vstd::arithmetic::div_mod::{lemma_add_mod_noop, lemma_small_mod};

verus! {

/// Size in bytes of the fixed newc header record.
pub const HEADER_SIZE: usize = 110;

/// Errors raised while decoding an archive.
#[derive(Clone, Copy, Debug, PartialEq, Eq, Structural)]
pub enum CpioError {
    /// A header's magic field matches neither recognized literal.
    Framing,
    /// The input ended before a complete header, name region or content region.
    Truncated,
    /// A fixed-width numeric field holds a byte that is not a hexadecimal digit.
    BadHex,
}

/// A byte is an ASCII hexadecimal digit.
pub open spec fn is_hex_digit(b: u8) -> bool {
    (0x30 <= b && b <= 0x39) || (0x61 <= b && b <= 0x66) || (0x41 <= b && b <= 0x46)
}

/// Numeric value of an ASCII hexadecimal digit (0 for a non-digit).
pub open spec fn hex_digit_value(b: u8) -> nat {
    if 0x30 <= b && b <= 0x39 {
        (b - 0x30) as nat
    } else if 0x61 <= b && b <= 0x66 {
        (b - 0x61 + 10) as nat
    } else if 0x41 <= b && b <= 0x46 {
        (b - 0x41 + 10) as nat
    } else {
        0
    }
}

/// A well-formed fixed-width numeric field: exactly 8 hexadecimal digits.
pub open spec fn hex_field_valid(s: Seq<u8>) -> bool {
    s.len() == 8 && forall|i: int| 0 <= i < s.len() ==> is_hex_digit(#[trigger] s[i])
}

/// Value of a big-endian string of hexadecimal digits.
pub open spec fn hex_value(s: Seq<u8>) -> nat
    decreases s.len(),
{
    if s.len() == 0 {
        0
    } else {
        hex_value(s.drop_last()) * 16 + hex_digit_value(s.last())
    }
}

/// 16 to the power `n`.
pub open spec fn pow16(n: nat) -> nat
    decreases n,
{
    if n == 0 {
        1
    } else {
        16 * pow16((n - 1) as nat)
    }
}

pub proof fn lemma_hex_value_bound(s: Seq<u8>)
    ensures
        hex_value(s) < pow16(s.len()),
    decreases s.len(),
{
    if s.len() == 0 {
    } else {
        lemma_hex_value_bound(s.drop_last());
        assert(hex_digit_value(s.last()) <= 15);
    }
}

pub proof fn lemma_pow16_values()
    ensures
        pow16(7) == 0x10000000,
        pow16(8) == 0x100000000,
{
    assert(pow16(0) == 1);
    assert(pow16(1) == 16);
    assert(pow16(2) == 0x100);
    assert(pow16(3) == 0x1000);
    assert(pow16(4) == 0x10000);
    assert(pow16(5) == 0x100000);
    assert(pow16(6) == 0x1000000);
    assert(pow16(7) == 0x10000000);
    assert(pow16(8) == 0x100000000);
}

pub proof fn lemma_hex_value_zeros(s: Seq<u8>)
    requires
        forall|i: int| 0 <= i < s.len() ==> s[i] == 0x30,
    ensures
        hex_value(s) == 0,
    decreases s.len(),
{
    if s.len() == 0 {
    } else {
        lemma_hex_value_zeros(s.drop_last());
        assert(hex_digit_value(s.last()) == 0);
    }
}

/// Parse one ASCII hexadecimal digit.
pub fn parse_hex_digit(b: u8) -> (r: Result<u8, CpioError>)
    ensures
        is_hex_digit(b) ==> r == Ok::<u8, CpioError>(hex_digit_value(b) as u8),
        !is_hex_digit(b) ==> r == Err::<u8, CpioError>(CpioError::BadHex),
{
    if 0x30 <= b && b <= 0x39 {
        Ok(b - 0x30)
    } else if 0x61 <= b && b <= 0x66 {
        Ok(b - 0x61 + 10)
    } else if 0x41 <= b && b <= 0x46 {
        Ok(b - 0x41 + 10)
    } else {
        Err(CpioError::BadHex)
    }
}

/// Parse the fixed-width 8-digit hexadecimal field starting at `off`.
///
/// Succeeds exactly when all 8 bytes are hexadecimal digits; the value of an
/// 8-digit field always fits in a `u32`.
pub fn parse_hex_field(bytes: &[u8], off: usize) -> (r: Result<u32, CpioError>)
    requires
        off + 8 <= bytes@.len(),
    ensures
        hex_field_valid(bytes@.subrange(off as int, off as int + 8)) ==> r == Ok::<
            u32,
            CpioError,
        >(hex_value(bytes@.subrange(off as int, off as int + 8)) as u32),
        !hex_field_valid(bytes@.subrange(off as int, off as int + 8)) ==> r == Err::<
            u32,
            CpioError,
        >(CpioError::BadHex),
{
    let ghost field = bytes@.subrange(off as int, off as int + 8);
    let n = bytes.len();
    let mut acc: u32 = 0;
    let mut i: usize = 0;
    while i < 8
        invariant
            i <= 8,
            off + 8 <= n == bytes@.len(),
            field == bytes@.subrange(off as int, off as int + 8),
            forall|j: int| 0 <= j < i ==> is_hex_digit(#[trigger] field[j]),
            acc as nat == hex_value(field.subrange(0, i as int)),
        decreases 8 - i,
    {
        let b = bytes[off + i];
        assert(b == field[i as int]);
        match parse_hex_digit(b) {
            Ok(d) => {
                proof {
                    lemma_hex_value_bound(field.subrange(0, i as int));
                    lemma_pow16_values();
                    assert(pow16((i as nat)) <= pow16(7)) by {
                        assert(pow16(0) <= pow16(1) <= pow16(2) <= pow16(3) <= pow16(4) <= pow16(5)
                            <= pow16(6) <= pow16(7));
                    }
                    assert(acc < 0x10000000);
                }
                let next: u32 = acc * 16 + d as u32;
                proof {
                    let pre = field.subrange(0, i as int);
                    let cur = field.subrange(0, i as int + 1);
                    assert(cur.drop_last() =~= pre);
                    assert(cur.last() == field[i as int]);
                    assert(next as nat == hex_value(cur));
                }
                acc = next;
            },
            Err(e) => {
                assert(!is_hex_digit(field[i as int]));
                return Err(e);
            },
        }
        i += 1;
    }
    proof {
        assert(field.subrange(0, 8) =~= field);
    }
    Ok(acc)
}

/// Padding that brings `total` up to the next multiple of 4.
fn pad_to_4(total: u64) -> (r: u64)
    requires
        total + 3 <= u64::MAX,
    ensures
        r == (4 - (total as int % 4)) % 4,
        r < 4,
        (total + r) % 4 == 0,
        forall|c: int| 0 <= c < r ==> #[trigger] ((total + c) % 4) != 0,
{
    let rem: u64 = total % 4;
    let r: u64 = (4 - rem) % 4;
    proof {
        let m = total as int % 4;
        assert(0 <= m < 4);
        if m == 0 {
            assert(r == 0);
        } else {
            lemma_small_mod((4 - m) as nat, 4);
            assert(r == 4 - m);
            lemma_add_mod_noop(total as int, r as int, 4);
            lemma_small_mod(r as nat, 4);
            assert((total + r) % 4 == (m + (4 - m)) % 4);
        }
        assert forall|c: int| 0 <= c < r implies #[trigger] ((total + c) % 4) != 0 by {
            lemma_add_mod_noop(total as int, c, 4);
            lemma_small_mod(c as nat, 4);
            lemma_small_mod((m + c) as nat, 4);
            assert((total + c) % 4 == m + c);
        }
    }
    r
}

/// Padding of the name region: the smallest count of NUL bytes that brings
/// `HEADER_SIZE + namesize` up to a multiple of 4.
pub open spec fn spec_name_padding(namesize: int) -> int {
    (4 - ((110 + namesize) % 4)) % 4
}

/// Padding of the content region: the smallest count of NUL bytes that brings
/// `filesize` up to a multiple of 4.
pub open spec fn spec_content_padding(filesize: int) -> int {
    (4 - (filesize % 4)) % 4
}

/// Number of padding bytes after the path name: the header and the name
/// together are padded to the next multiple of 4, measured from the start of
/// the header.
pub fn name_padding(namesize: u32) -> (r: u32)
    ensures
        r == spec_name_padding(namesize as int),
        r < 4,
        (110 + namesize as int + r) % 4 == 0,
        forall|c: int| 0 <= c < r ==> #[trigger] ((110 + namesize as int + c) % 4) != 0,
{
    let p = pad_to_4(110u64 + namesize as u64);
    p as u32
}

/// Number of padding bytes after the content: the content region alone is
/// padded to the next multiple of 4.
pub fn content_padding(filesize: u32) -> (r: u32)
    ensures
        r == spec_content_padding(filesize as int),
        r < 4,
        (filesize as int + r) % 4 == 0,
        forall|c: int| 0 <= c < r ==> #[trigger] ((filesize as int + c) % 4) != 0,
{
    let p = pad_to_4(filesize as u64);
    p as u32
}


/// The magic field of a header: the ASCII literal `"070701"` (no checksum)
/// or `"070702"` (with checksum).
pub open spec fn magic_ok(s: Seq<u8>) -> bool {
    s.len() == 6 && s[0] == 0x30 && s[1] == 0x37 && s[2] == 0x30 && s[3] == 0x37 && s[4] == 0x30
        && (s[5] == 0x31 || s[5] == 0x32)
}

/// Check the 6-byte magic field starting at `off`.
pub fn magic_matches(bytes: &[u8], off: usize) -> (r: bool)
    requires
        off + 6 <= bytes@.len(),
    ensures
        r == magic_ok(bytes@.subrange(off as int, off as int + 6)),
{
    let ghost field = bytes@.subrange(off as int, off as int + 6);
    proof {
        assert(forall|j: int| 0 <= j < 6 ==> #[trigger] field[j] == bytes@[off + j]);
    }
    bytes[off] == 0x30 && bytes[off + 1] == 0x37 && bytes[off + 2] == 0x30 && bytes[off + 3] == 0x37
        && bytes[off + 4] == 0x30 && (bytes[off + 5] == 0x31 || bytes[off + 5] == 0x32)
}

/// The 11-byte path name of the sentinel entry: `"TRAILER!!!"` and a NUL.
pub open spec fn trailer_name() -> Seq<u8> {
    seq![0x54u8, 0x52u8, 0x41u8, 0x49u8, 0x4cu8, 0x45u8, 0x52u8, 0x21u8, 0x21u8, 0x21u8, 0u8]
}

/// An entry is the end-of-archive sentinel exactly when its namesize is 11 and
/// the first 11 bytes of its name region are `"TRAILER!!!"` and a NUL.
pub open spec fn spec_is_sentinel(namesize: int, name_region: Seq<u8>) -> bool {
    namesize == 11 && name_region.len() >= 11 && name_region.subrange(0, 11) == trailer_name()
}

/// Decide whether an entry is the end-of-archive sentinel, from its namesize
/// and its raw name region (padding included).
pub fn is_sentinel(namesize: u32, name_region: &[u8]) -> (r: bool)
    ensures
        r == spec_is_sentinel(namesize as int, name_region@),
{
    if namesize != 11 {
        return false;
    }
    if name_region.len() < 11 {
        return false;
    }
    let r = name_region[0] == 0x54 && name_region[1] == 0x52 && name_region[2] == 0x41
        && name_region[3] == 0x49 && name_region[4] == 0x4c && name_region[5] == 0x45
        && name_region[6] == 0x52 && name_region[7] == 0x21 && name_region[8] == 0x21
        && name_region[9] == 0x21 && name_region[10] == 0;
    proof {
        let head = name_region@.subrange(0, 11);
        assert(forall|j: int| 0 <= j < 11 ==> #[trigger] head[j] == name_region@[j]);
        if r {
            assert(head =~= trailer_name());
        } else {
            if head == trailer_name() {
                assert(name_region@[0] == 0x54 && name_region@[1] == 0x52 && name_region@[2] == 0x41
                    && name_region@[3] == 0x49 && name_region@[4] == 0x4c && name_region@[5] == 0x45
                    && name_region@[6] == 0x52 && name_region@[7] == 0x21 && name_region@[8] == 0x21
                    && name_region@[9] == 0x21 && name_region@[10] == 0);
            }
        }
    }
    r
}

/// The 110 bytes of a synthesized sentinel header: the chosen magic, a
/// namesize field of `"0000000b"` (11, for `"TRAILER!!!"` and a NUL), and
/// ASCII zeros in every other field.
pub open spec fn spec_sentinel_header(use_checksum_magic: bool) -> Seq<u8> {
    Seq::new(
        110,
        |i: int|
            if i == 1 || i == 3 {
                0x37u8
            } else if i == 5 {
                if use_checksum_magic {
                    0x32u8
                } else {
                    0x31u8
                }
            } else if i == 101 {
                0x62u8
            } else {
                0x30u8
            },
    )
}

/// Encode the terminating sentinel header: all numeric fields zero except the
/// namesize, which holds 11 for the name `"TRAILER!!!"` and its NUL.
pub fn encode_sentinel(use_checksum_magic: bool) -> (r: Vec<u8>)
    ensures
        r@ == spec_sentinel_header(use_checksum_magic),
        r@.len() == 110,
{
    let mut v: Vec<u8> = Vec::new();
    let mut i: usize = 0;
    while i < 110
        invariant
            i <= 110,
            v@ == spec_sentinel_header(use_checksum_magic).subrange(0, i as int),
        decreases 110 - i,
    {
        let b: u8 = if i == 1 || i == 3 {
            0x37
        } else if i == 5 {
            if use_checksum_magic {
                0x32
            } else {
                0x31
            }
        } else if i == 101 {
            0x62
        } else {
            0x30
        };
        v.push(b);
        proof {
            assert(v@ =~= spec_sentinel_header(use_checksum_magic).subrange(0, i as int + 1));
        }
        i += 1;
    }
    proof {
        assert(spec_sentinel_header(use_checksum_magic).subrange(0, 110) =~= spec_sentinel_header(
            use_checksum_magic,
        ));
    }
    v
}

/// The 16-byte name region written after the synthesized sentinel header:
/// `"TRAILER!!!"`, a NUL, and five more NUL bytes.
pub open spec fn spec_sentinel_name_region() -> Seq<u8> {
    trailer_name() + seq![0u8, 0u8, 0u8, 0u8, 0u8]
}

/// Encode the name region of the synthesized sentinel.
pub fn sentinel_name_region() -> (r: Vec<u8>)
    ensures
        r@ == spec_sentinel_name_region(),
        r@.len() == 16,
{
    let mut v: Vec<u8> = Vec::new();
    v.push(0x54);
    v.push(0x52);
    v.push(0x41);
    v.push(0x49);
    v.push(0x4c);
    v.push(0x45);
    v.push(0x52);
    v.push(0x21);
    v.push(0x21);
    v.push(0x21);
    v.push(0);
    v.push(0);
    v.push(0);
    v.push(0);
    v.push(0);
    v.push(0);
    proof {
        assert(v@ =~= spec_sentinel_name_region());
    }
    v
}

/// One decoded newc header record: the raw 110 bytes as read, kept so that a
/// surviving entry can be re-emitted verbatim.
#[derive(Debug)]
pub struct Header {
    /// The raw header bytes, exactly as they stood in the input.
    pub bytes: Vec<u8>,
}

impl Header {
    /// A well-formed record: 110 bytes whose magic field is recognized.
    pub open spec fn wf(self) -> bool {
        self.bytes@.len() == 110 && magic_ok(self.bytes@.subrange(0, 6))
    }

    /// Decode a raw 110-byte header. Fails with a framing error exactly when
    /// the magic field matches neither recognized literal; no other field is
    /// validated here.
    pub fn decode(raw: &[u8]) -> (r: Result<Header, CpioError>)
        requires
            raw@.len() == 110,
        ensures
            magic_ok(raw@.subrange(0, 6)) ==> (r matches Ok(h) && h.bytes@ == raw@ && h.wf()),
            !magic_ok(raw@.subrange(0, 6)) ==> r == Err::<Header, CpioError>(CpioError::Framing),
    {
        if !magic_matches(raw, 0) {
            return Err(CpioError::Framing);
        }
        let h = Header { bytes: vstd::slice::slice_to_vec(raw) };
        Ok(h)
    }

    /// Parse the namesize field: the byte length of the path name, terminating
    /// NUL included. Fails exactly when the field is not 8 hexadecimal digits.
    pub fn namesize(&self) -> (r: Result<u32, CpioError>)
        requires
            self.wf(),
        ensures
            hex_field_valid(self.bytes@.subrange(94, 102)) ==> r == Ok::<u32, CpioError>(
                hex_value(self.bytes@.subrange(94, 102)) as u32,
            ),
            !hex_field_valid(self.bytes@.subrange(94, 102)) ==> r == Err::<u32, CpioError>(
                CpioError::BadHex,
            ),
    {
        parse_hex_field(self.bytes.as_slice(), 94)
    }

    /// Parse the filesize field: the byte length of the content region. Fails
    /// exactly when the field is not 8 hexadecimal digits.
    pub fn filesize(&self) -> (r: Result<u32, CpioError>)
        requires
            self.wf(),
        ensures
            hex_field_valid(self.bytes@.subrange(54, 62)) ==> r == Ok::<u32, CpioError>(
                hex_value(self.bytes@.subrange(54, 62)) as u32,
            ),
            !hex_field_valid(self.bytes@.subrange(54, 62)) ==> r == Err::<u32, CpioError>(
                CpioError::BadHex,
            ),
    {
        parse_hex_field(self.bytes.as_slice(), 54)
    }
}

} // verus!
