//! The index file: headers and little-endian fields.
//!
//! An exact index is a 24-byte header and records of 16 bytes. A clustered (IVF) index is
//! a 32-byte header, the centroids, the cluster offsets, the lower and upper corners of
//! the cluster boxes, and records of 32 bytes.

use vstd::prelude::*;

use crate::text::ascii;

verus! {

/// The number of components of a vector.
pub const DIMS: usize = 14;

pub const EXACT_VERSION: u32 = 2;

pub const IVF_VERSION: u32 = 3;

pub const EXACT_HEADER_LEN: usize = 24;

pub const EXACT_RECORD_LEN: usize = 16;

pub const EXACT_LABEL_OFFSET: usize = 14;

pub const IVF_HEADER_LEN: usize = 32;

pub const IVF_RECORD_LEN: usize = 32;

pub const IVF_LABEL_OFFSET: usize = 28;

/// The first eight bytes of every index file.
pub open spec fn magic() -> Seq<u8> {
    ascii("RINHA26\0"@)
}

/// `n` in `width` bytes, the least significant first.
pub open spec fn little_endian(n: nat, width: nat) -> Seq<u8>
    decreases width,
{
    if width == 0 {
        Seq::empty()
    } else {
        seq![(n % 256) as u8] + little_endian(n / 256, (width - 1) as nat)
    }
}

/// The number in the `width` bytes from `at` on, the least significant first.
pub open spec fn field(s: Seq<u8>, at: int, width: nat) -> nat
    decreases width,
{
    if width == 0 {
        0
    } else {
        s[at] as nat + 256 * field(s, at + 1, (width - 1) as nat)
    }
}

/// `256^width`.
pub open spec fn field_limit(width: nat) -> nat
    decreases width,
{
    if width == 0 {
        1
    } else {
        256 * field_limit((width - 1) as nat)
    }
}

/// The header of an exact index.
pub open spec fn exact_header(count: u64) -> Seq<u8> {
    magic() + little_endian(EXACT_VERSION as nat, 4) + little_endian(DIMS as nat, 4)
        + little_endian(count as nat, 8)
}

/// The header of a clustered index.
pub open spec fn ivf_header(count: u64, cluster_count: u32) -> Seq<u8> {
    magic() + little_endian(IVF_VERSION as nat, 4) + little_endian(DIMS as nat, 4)
        + little_endian(count as nat, 8) + little_endian(cluster_count as nat, 4)
        + little_endian(0, 4)
}

pub proof fn lemma_little_endian_len(n: nat, width: nat)
    ensures
        little_endian(n, width).len() == width,
    decreases width,
{
    if width > 0 {
        lemma_little_endian_len(n / 256, (width - 1) as nat);
    }
}

/// A field reads back the number that was written.
pub proof fn lemma_field_of_little_endian(s: Seq<u8>, at: int, n: nat, width: nat)
    requires
        n < field_limit(width),
        0 <= at,
        at + width <= s.len(),
        s.subrange(at, at + width) == little_endian(n, width),
    ensures
        field(s, at, width) == n,
    decreases width,
{
    if width > 0 {
        let w = (width - 1) as nat;
        let whole = little_endian(n, width);
        let tail = little_endian(n / 256, w);
        lemma_little_endian_len(n / 256, w);
        assert(s.subrange(at, at + width)[0] == s[at]);
        assert(whole[0] == (n % 256) as u8);
        assert(s.subrange(at + 1, at + 1 + w) =~= whole.subrange(1, width as int));
        assert(whole.subrange(1, width as int) =~= tail);
        lemma_field_of_little_endian(s, at + 1, n / 256, w);
    }
}

/// Appends `n` in four bytes.
fn push_u32(out: &mut Vec<u8>, n: u32)
    ensures
        final(out)@ == old(out)@ + little_endian(n as nat, 4),
{
    let ghost start = out@;
    let mut rest: u32 = n;
    let mut i: u32 = 0;
    assert(out@ + little_endian(n as nat, 4) =~= start + little_endian(n as nat, 4));
    while i < 4
        invariant
            i <= 4,
            out@ + little_endian(rest as nat, (4 - i) as nat) == start + little_endian(n as nat, 4),
        decreases 4 - i,
    {
        let ghost before = out@;
        out.push((rest % 256) as u8);
        proof {
            assert(before + (seq![(rest as nat % 256) as u8] + little_endian(
                rest as nat / 256,
                (3 - i) as nat,
            )) =~= out@ + little_endian(rest as nat / 256, (3 - i) as nat));
        }
        rest = rest / 256;
        i = i + 1;
    }
    assert(out@ + little_endian(rest as nat, 0) =~= out@);
}

/// Appends `n` in eight bytes.
fn push_u64(out: &mut Vec<u8>, n: u64)
    ensures
        final(out)@ == old(out)@ + little_endian(n as nat, 8),
{
    let ghost start = out@;
    let mut rest: u64 = n;
    let mut i: u32 = 0;
    while i < 8
        invariant
            i <= 8,
            out@ + little_endian(rest as nat, (8 - i) as nat) == start + little_endian(n as nat, 8),
        decreases 8 - i,
    {
        let ghost before = out@;
        out.push((rest % 256) as u8);
        proof {
            assert(before + (seq![(rest as nat % 256) as u8] + little_endian(
                rest as nat / 256,
                (7 - i) as nat,
            )) =~= out@ + little_endian(rest as nat / 256, (7 - i) as nat));
        }
        rest = rest / 256;
        i = i + 1;
    }
    assert(out@ + little_endian(rest as nat, 0) =~= out@);
}

/// Appends the first eight bytes of an index file.
fn push_magic(out: &mut Vec<u8>)
    ensures
        final(out)@ == old(out)@ + magic(),
{
    let text = "RINHA26\0";
    proof {
        reveal_strlit("RINHA26\0");
        vstd::string::is_ascii_spec_bytes(text);
        assert(vstd::utf8::encode_utf8(text@) =~= magic());
    }
    out.extend_from_slice(text.as_bytes());
    assert(out@ =~= old(out)@ + magic());
}

/// Appends the header of an exact index of `count` records.
pub fn write_header(writer: &mut Vec<u8>, count: u64)
    ensures
        final(writer)@ == old(writer)@ + exact_header(count),
{
    push_magic(writer);
    push_u32(writer, EXACT_VERSION);
    push_u32(writer, DIMS as u32);
    push_u64(writer, count);
    assert(writer@ =~= old(writer)@ + exact_header(count));
}

/// Appends the header of a clustered index of `count` records in `cluster_count` clusters.
pub fn write_ivf_header(writer: &mut Vec<u8>, count: u64, cluster_count: u32)
    ensures
        final(writer)@ == old(writer)@ + ivf_header(count, cluster_count),
{
    push_magic(writer);
    push_u32(writer, IVF_VERSION);
    push_u32(writer, DIMS as u32);
    push_u64(writer, count);
    push_u32(writer, cluster_count);
    push_u32(writer, 0);
    assert(writer@ =~= old(writer)@ + ivf_header(count, cluster_count));
}

/// The two bytes at `at` as a number.
pub fn read_u16(data: &[u8], at: usize) -> (r: u16)
    requires
        at + 2 <= data@.len(),
    ensures
        r == field(data@, at as int, 2),
{
    reveal_with_fuel(field, 3);
    data[at] as u16 + 256 * data[at + 1] as u16
}

/// The two bytes at `at` as a number in two's complement.
pub open spec fn signed_field(s: Seq<u8>, at: int) -> int {
    let n = field(s, at, 2);
    if n < 0x8000 {
        n as int
    } else {
        n - 0x1_0000
    }
}

/// The two bytes at `at` as a number in two's complement.
pub fn read_i16(data: &[u8], at: usize) -> (r: i16)
    requires
        at + 2 <= data@.len(),
    ensures
        r == signed_field(data@, at as int),
{
    let n: u16 = read_u16(data, at);
    if n < 0x8000 {
        n as i16
    } else {
        (n as i32 - 0x1_0000) as i16
    }
}

/// The four bytes at `at` as a number.
pub fn read_u32(data: &[u8], at: usize) -> (r: u32)
    requires
        at + 4 <= data@.len(),
    ensures
        r == field(data@, at as int, 4),
{
    let len: usize = data.len();
    assert(at + 4 <= len);
    let low: u16 = read_u16(data, at);
    let high: u16 = read_u16(data, at + 2);
    proof {
        reveal_with_fuel(field, 5);
    }
    low as u32 + 0x1_0000 * high as u32
}

/// The eight bytes at `at` as a number.
pub fn read_u64(data: &[u8], at: usize) -> (r: u64)
    requires
        at + 8 <= data@.len(),
    ensures
        r == field(data@, at as int, 8),
{
    let len: usize = data.len();
    assert(at + 8 <= len);
    let low: u32 = read_u32(data, at);
    let high: u32 = read_u32(data, at + 4);
    proof {
        reveal_with_fuel(field, 5);
        assert(field(data@, at as int, 8) == data@[at as int] as nat + 256 * field(data@, at + 1, 7));
        assert(field(data@, at + 1, 7) == data@[at + 1] as nat + 256 * field(data@, at + 2, 6));
        assert(field(data@, at + 2, 6) == data@[at + 2] as nat + 256 * field(data@, at + 3, 5));
        assert(field(data@, at + 3, 5) == data@[at + 3] as nat + 256 * field(data@, at + 4, 4));
    }
    low as u64 + 0x1_0000_0000 * high as u64
}

/// Fields are little-endian: each byte counts 256 times as much as the one before it. Two
/// bytes in two's complement are as much, or 65536 less from 32768 on.
pub proof fn law_fields_are_little_endian(s: Seq<u8>, at: int)
    ensures
        field(s, at, 2) == s[at] + 0x100 * s[at + 1],
        field(s, at, 4) == s[at] + 0x100 * s[at + 1] + 0x1_0000 * s[at + 2] + 0x100_0000 * s[at
            + 3],
        field(s, at, 8) == s[at] + 0x100 * s[at + 1] + 0x1_0000 * s[at + 2] + 0x100_0000 * s[at
            + 3] + 0x1_0000_0000 * s[at + 4] + 0x100_0000_0000 * s[at + 5] + 0x1_0000_0000_0000
            * s[at + 6] + 0x100_0000_0000_0000 * s[at + 7],
        signed_field(s, at) == s[at] + 0x100 * s[at + 1] - if s[at + 1] >= 128 {
            0x1_0000int
        } else {
            0
        },
{
    reveal_with_fuel(field, 9);
}

} // verus!
