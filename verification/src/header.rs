//! The 512-byte ustar header block and its byte layout.

use crate::octal::{lemma_octal_len_upper, lemma_parse_padded_octal, padded_octal, parse_octal, pow8};
use vstd::prelude::*;

verus! {

/// The ustar indicator of every header written here: `"ustar "`.
pub const MAGIC_NUMBER: [u8; 6] = [0x75, 0x73, 0x74, 0x61, 0x72, 0x20];

/// The ustar version of every header written here: `" \0"`.
pub const MAGIC_VERSION: [u8; 2] = [0x20, 0x00];

/// Size of a header block, and of every block of an archive.
pub const BLOCK_SIZE: usize = 512;

/// A tar header block, field by field, in the order in which the fields
/// stand in the block.
pub struct CommonHeader {
    pub path: [u8; 100],
    pub mode: [u8; 8],
    pub owner_user: [u8; 8],
    pub group_user: [u8; 8],
    pub file_size: [u8; 12],
    pub modification_time: [u8; 12],
    pub checksum: [u8; 8],
    pub type_flag: u8,
    pub type_info: [u8; 100],
    pub ustar_indicator: [u8; 6],
    pub ustar_version: [u8; 2],
    pub owner_user_name: [u8; 32],
    pub owner_group_name: [u8; 32],
    pub device_major: [u8; 8],
    pub device_minor: [u8; 8],
    pub filename_prefix: [u8; 155],
    pub paddings: [u8; 12],
}

/// The number of blocks that `size` bytes of content take up.
pub open spec fn block_count(size: nat) -> nat {
    (size + 511) / 512
}

/// `n` zero bytes.
pub open spec fn zero_bytes(n: nat) -> Seq<u8> {
    Seq::new(n, |i: int| 0u8)
}

impl CommonHeader {
    /// The 512 bytes of the block: the fields one after the other.
    pub open spec fn header_bytes(self) -> Seq<u8> {
        self.path@ + self.mode@ + self.owner_user@ + self.group_user@ + self.file_size@
            + self.modification_time@ + self.checksum@ + seq![self.type_flag] + self.type_info@
            + self.ustar_indicator@ + self.ustar_version@ + self.owner_user_name@
            + self.owner_group_name@ + self.device_major@ + self.device_minor@
            + self.filename_prefix@ + self.paddings@
    }

    /// A header whose every byte is zero.
    pub fn new() -> (header: Self)
        ensures
            header.header_bytes() == zero_bytes(512),
            header.header_bytes().len() == 512,
            forall|i: int| 0 <= i < 512 ==> header.header_bytes()[i] == 0,
    {
        let header = CommonHeader {
            path: [0u8; 100],
            mode: [0u8; 8],
            owner_user: [0u8; 8],
            group_user: [0u8; 8],
            file_size: [0u8; 12],
            modification_time: [0u8; 12],
            checksum: [0u8; 8],
            type_flag: 0,
            type_info: [0u8; 100],
            ustar_indicator: [0u8; 6],
            ustar_version: [0u8; 2],
            owner_user_name: [0u8; 32],
            owner_group_name: [0u8; 32],
            device_major: [0u8; 8],
            device_minor: [0u8; 8],
            filename_prefix: [0u8; 155],
            paddings: [0u8; 12],
        };
        assert(header.header_bytes() =~= zero_bytes(512));
        header
    }
}


/// Appends the bytes of `src` to `out`.
pub(crate) fn append_bytes(out: &mut Vec<u8>, src: &[u8])
    ensures
        final(out)@ == old(out)@ + src@,
{
    let ghost start = out@;
    let mut i: usize = 0;
    while i < src.len()
        invariant
            i <= src.len(),
            out@ == start + src@.subrange(0, i as int),
        decreases src.len() - i,
    {
        out.push(src[i]);
        i = i + 1;
        assert(out@ =~= start + src@.subrange(0, i as int));
    }
    assert(src@.subrange(0, i as int) =~= src@);
}

/// Fills `dst` with the bytes of `block` from `start` on.
pub(crate) fn copy_from_block<const N: usize>(dst: &mut [u8; N], block: &[u8], start: usize)
    requires
        start + N <= block@.len(),
    ensures
        final(dst)@ == block@.subrange(start as int, start + N),
{
    let mut i: usize = 0;
    while i < N
        invariant
            i <= N,
            start + N <= block.len(),
            dst@.len() == N,
            forall|k: int| 0 <= k < i ==> dst@[k] == block@[start + k],
        decreases N - i,
    {
        dst[i] = block[start + i];
        i = i + 1;
    }
    assert(dst@ =~= block@.subrange(start as int, start + N));
}

impl CommonHeader {
    /// The 512 bytes of the block.
    pub fn to_bytes(&self) -> (bytes: Vec<u8>)
        ensures
            bytes@ == self.header_bytes(),
    {
        let mut out: Vec<u8> = Vec::with_capacity(512);
        append_bytes(&mut out, &self.path);
        append_bytes(&mut out, &self.mode);
        append_bytes(&mut out, &self.owner_user);
        append_bytes(&mut out, &self.group_user);
        append_bytes(&mut out, &self.file_size);
        append_bytes(&mut out, &self.modification_time);
        append_bytes(&mut out, &self.checksum);
        out.push(self.type_flag);
        append_bytes(&mut out, &self.type_info);
        append_bytes(&mut out, &self.ustar_indicator);
        append_bytes(&mut out, &self.ustar_version);
        append_bytes(&mut out, &self.owner_user_name);
        append_bytes(&mut out, &self.owner_group_name);
        append_bytes(&mut out, &self.device_major);
        append_bytes(&mut out, &self.device_minor);
        append_bytes(&mut out, &self.filename_prefix);
        append_bytes(&mut out, &self.paddings);
        assert(out@ =~= self.header_bytes());
        out
    }

    /// Reads a header block: the header whose bytes are `block`.
    pub fn from_bytes(block: &[u8]) -> (header: Self)
        requires
            block@.len() == 512,
        ensures
            header.header_bytes() == block@,
    {
        let mut h = CommonHeader::new();
        copy_from_block(&mut h.path, block, 0);
        copy_from_block(&mut h.mode, block, 100);
        copy_from_block(&mut h.owner_user, block, 108);
        copy_from_block(&mut h.group_user, block, 116);
        copy_from_block(&mut h.file_size, block, 124);
        copy_from_block(&mut h.modification_time, block, 136);
        copy_from_block(&mut h.checksum, block, 148);
        h.type_flag = block[156];
        copy_from_block(&mut h.type_info, block, 157);
        copy_from_block(&mut h.ustar_indicator, block, 257);
        copy_from_block(&mut h.ustar_version, block, 263);
        copy_from_block(&mut h.owner_user_name, block, 265);
        copy_from_block(&mut h.owner_group_name, block, 297);
        copy_from_block(&mut h.device_major, block, 329);
        copy_from_block(&mut h.device_minor, block, 337);
        copy_from_block(&mut h.filename_prefix, block, 345);
        copy_from_block(&mut h.paddings, block, 500);
        assert(h.header_bytes() =~= block@);
        h
    }
}


/// Every header block is 512 bytes long.
pub proof fn lemma_header_bytes_len(h: CommonHeader)
    ensures
        h.header_bytes().len() == 512,
{
}

/// A header is determined by its bytes: two headers with the same bytes are
/// the same header, so reading back the bytes that `to_bytes` wrote gives
/// the header that was written.
pub proof fn lemma_header_bytes_determine_header(a: CommonHeader, b: CommonHeader)
    requires
        a.header_bytes() == b.header_bytes(),
    ensures
        a == b,
{
    let x = a.header_bytes();
    let y = b.header_bytes();
    assert(a.path@ =~= x.subrange(0, 100));
    assert(b.path@ =~= y.subrange(0, 100));
    assert(a.mode@ =~= x.subrange(100, 108));
    assert(b.mode@ =~= y.subrange(100, 108));
    assert(a.owner_user@ =~= x.subrange(108, 116));
    assert(b.owner_user@ =~= y.subrange(108, 116));
    assert(a.group_user@ =~= x.subrange(116, 124));
    assert(b.group_user@ =~= y.subrange(116, 124));
    assert(a.file_size@ =~= x.subrange(124, 136));
    assert(b.file_size@ =~= y.subrange(124, 136));
    assert(a.modification_time@ =~= x.subrange(136, 148));
    assert(b.modification_time@ =~= y.subrange(136, 148));
    assert(a.checksum@ =~= x.subrange(148, 156));
    assert(b.checksum@ =~= y.subrange(148, 156));
    assert(a.type_flag == x[156]);
    assert(b.type_flag == y[156]);
    assert(a.type_info@ =~= x.subrange(157, 257));
    assert(b.type_info@ =~= y.subrange(157, 257));
    assert(a.ustar_indicator@ =~= x.subrange(257, 263));
    assert(b.ustar_indicator@ =~= y.subrange(257, 263));
    assert(a.ustar_version@ =~= x.subrange(263, 265));
    assert(b.ustar_version@ =~= y.subrange(263, 265));
    assert(a.owner_user_name@ =~= x.subrange(265, 297));
    assert(b.owner_user_name@ =~= y.subrange(265, 297));
    assert(a.owner_group_name@ =~= x.subrange(297, 329));
    assert(b.owner_group_name@ =~= y.subrange(297, 329));
    assert(a.device_major@ =~= x.subrange(329, 337));
    assert(b.device_major@ =~= y.subrange(329, 337));
    assert(a.device_minor@ =~= x.subrange(337, 345));
    assert(b.device_minor@ =~= y.subrange(337, 345));
    assert(a.filename_prefix@ =~= x.subrange(345, 500));
    assert(b.filename_prefix@ =~= y.subrange(345, 500));
    assert(a.paddings@ =~= x.subrange(500, 512));
    assert(b.paddings@ =~= y.subrange(500, 512));
    assert(a.path =~= b.path);
    assert(a.mode =~= b.mode);
    assert(a.owner_user =~= b.owner_user);
    assert(a.group_user =~= b.group_user);
    assert(a.file_size =~= b.file_size);
    assert(a.modification_time =~= b.modification_time);
    assert(a.checksum =~= b.checksum);
    assert(a.type_info =~= b.type_info);
    assert(a.ustar_indicator =~= b.ustar_indicator);
    assert(a.ustar_version =~= b.ustar_version);
    assert(a.owner_user_name =~= b.owner_user_name);
    assert(a.owner_group_name =~= b.owner_group_name);
    assert(a.device_major =~= b.device_major);
    assert(a.device_minor =~= b.device_minor);
    assert(a.filename_prefix =~= b.filename_prefix);
    assert(a.paddings =~= b.paddings);
}


/// The sum of the bytes of `s`.
pub open spec fn byte_sum(s: Seq<u8>) -> nat
    decreases s.len(),
{
    if s.len() == 0 {
        0
    } else {
        byte_sum(s.drop_last()) + s.last() as nat
    }
}

/// The checksum of a header: the sum of all its bytes, where the eight bytes
/// of the checksum field count as spaces.
pub open spec fn header_checksum(h: CommonHeader) -> nat {
    byte_sum(h.header_bytes().subrange(0, 148)) + 8 * 32 + byte_sum(
        h.header_bytes().subrange(156, 512),
    )
}

/// How a checksum is written in its field: six octal digits padded with
/// zeros, a NUL and a space.
pub open spec fn checksum_field(sum: nat) -> Seq<u8> {
    padded_octal(sum, 6) + seq![0u8, 0x20u8]
}

/// The sum of two byte strings one after the other is the sum of their sums.
pub proof fn lemma_byte_sum_concat(a: Seq<u8>, b: Seq<u8>)
    ensures
        byte_sum(a + b) == byte_sum(a) + byte_sum(b),
    decreases b.len(),
{
    if b.len() == 0 {
        assert(a + b =~= a);
    } else {
        assert((a + b).drop_last() =~= a + b.drop_last());
        lemma_byte_sum_concat(a, b.drop_last());
    }
}

/// Adding up the bytes of `s` from the first to the `i`-th.
pub proof fn lemma_byte_sum_step(s: Seq<u8>, i: int)
    requires
        0 <= i < s.len(),
    ensures
        byte_sum(s.take(i + 1)) == byte_sum(s.take(i)) + s[i],
{
    assert(s.take(i + 1).drop_last() =~= s.take(i));
}


/// The fields of a header whose bytes are all zero are all zero.
pub proof fn lemma_zero_fields(h: CommonHeader)
    requires
        h.header_bytes() == zero_bytes(512),
    ensures
        h.type_info@ == zero_bytes(100),
        h.owner_user_name@ == zero_bytes(32),
        h.owner_group_name@ == zero_bytes(32),
        h.device_major@ == zero_bytes(8),
        h.device_minor@ == zero_bytes(8),
        h.filename_prefix@ == zero_bytes(155),
        h.paddings@ == zero_bytes(12),
{
    let x = h.header_bytes();
    assert(h.type_info@ =~= x.subrange(157, 257));
    assert(h.owner_user_name@ =~= x.subrange(265, 297));
    assert(h.owner_group_name@ =~= x.subrange(297, 329));
    assert(h.device_major@ =~= x.subrange(329, 337));
    assert(h.device_minor@ =~= x.subrange(337, 345));
    assert(h.filename_prefix@ =~= x.subrange(345, 500));
    assert(h.paddings@ =~= x.subrange(500, 512));
    assert(h.type_info@ =~= zero_bytes(100));
    assert(h.owner_user_name@ =~= zero_bytes(32));
    assert(h.owner_group_name@ =~= zero_bytes(32));
    assert(h.device_major@ =~= zero_bytes(8));
    assert(h.device_minor@ =~= zero_bytes(8));
    assert(h.filename_prefix@ =~= zero_bytes(155));
    assert(h.paddings@ =~= zero_bytes(12));
}


/// No byte is above 255, so `s` sums to at most `255 * s.len()`.
pub proof fn lemma_byte_sum_bound(s: Seq<u8>)
    ensures
        byte_sum(s) <= 255 * s.len(),
    decreases s.len(),
{
    if s.len() > 0 {
        lemma_byte_sum_bound(s.drop_last());
    }
}

/// The checksum of a header is below `8^6`, so it fits in the six digits of
/// the checksum field.
pub proof fn lemma_header_checksum_bound(h: CommonHeader)
    ensures
        header_checksum(h) < 262144,
{
    lemma_byte_sum_bound(h.header_bytes().subrange(0, 148));
    lemma_byte_sum_bound(h.header_bytes().subrange(156, 512));
}

/// A checksum below `8^6` written in its field reads back as that checksum:
/// the first six bytes are its octal digits, then come a NUL and a space.
pub proof fn lemma_checksum_field_reads_back(sum: nat)
    requires
        sum < 262144,
    ensures
        checksum_field(sum).len() == 8,
        parse_octal(checksum_field(sum).take(6)) == Some(sum as u64),
        checksum_field(sum)[6] == 0,
        checksum_field(sum)[7] == 0x20,
{
    assert(pow8(6) == 262144) by {
        reveal_with_fuel(pow8, 7);
    }
    lemma_octal_len_upper(sum, 6);
    lemma_parse_padded_octal(sum, 6, Seq::empty());
    assert(padded_octal(sum, 6) + Seq::<u8>::empty() =~= padded_octal(sum, 6));
    assert(checksum_field(sum).take(6) =~= padded_octal(sum, 6));
}

/// Where each field stands in the 512 bytes of a header block.
pub proof fn lemma_header_layout(h: CommonHeader)
    ensures
        h.header_bytes().len() == 512,
        h.header_bytes().subrange(0, 100) == h.path@,
        h.header_bytes().subrange(100, 108) == h.mode@,
        h.header_bytes().subrange(108, 116) == h.owner_user@,
        h.header_bytes().subrange(116, 124) == h.group_user@,
        h.header_bytes().subrange(124, 136) == h.file_size@,
        h.header_bytes().subrange(136, 148) == h.modification_time@,
        h.header_bytes().subrange(148, 156) == h.checksum@,
        h.header_bytes()[156] == h.type_flag,
        h.header_bytes().subrange(157, 257) == h.type_info@,
        h.header_bytes().subrange(257, 263) == h.ustar_indicator@,
        h.header_bytes().subrange(263, 265) == h.ustar_version@,
        h.header_bytes().subrange(265, 297) == h.owner_user_name@,
        h.header_bytes().subrange(297, 329) == h.owner_group_name@,
        h.header_bytes().subrange(329, 337) == h.device_major@,
        h.header_bytes().subrange(337, 345) == h.device_minor@,
        h.header_bytes().subrange(345, 500) == h.filename_prefix@,
        h.header_bytes().subrange(500, 512) == h.paddings@,
{
    let x = h.header_bytes();
    assert(x.subrange(0, 100) =~= h.path@);
    assert(x.subrange(100, 108) =~= h.mode@);
    assert(x.subrange(108, 116) =~= h.owner_user@);
    assert(x.subrange(116, 124) =~= h.group_user@);
    assert(x.subrange(124, 136) =~= h.file_size@);
    assert(x.subrange(136, 148) =~= h.modification_time@);
    assert(x.subrange(148, 156) =~= h.checksum@);
    assert(x.subrange(157, 257) =~= h.type_info@);
    assert(x.subrange(257, 263) =~= h.ustar_indicator@);
    assert(x.subrange(263, 265) =~= h.ustar_version@);
    assert(x.subrange(265, 297) =~= h.owner_user_name@);
    assert(x.subrange(297, 329) =~= h.owner_group_name@);
    assert(x.subrange(329, 337) =~= h.device_major@);
    assert(x.subrange(337, 345) =~= h.device_minor@);
    assert(x.subrange(345, 500) =~= h.filename_prefix@);
    assert(x.subrange(500, 512) =~= h.paddings@);
}


/// The checksum of a header is the sum of all 512 bytes of its block, less
/// the bytes of the checksum field, plus eight spaces in their place.
pub proof fn lemma_header_checksum_is_block_sum(h: CommonHeader)
    ensures
        header_checksum(h) + byte_sum(h.checksum@) == byte_sum(h.header_bytes()) + 8 * 32,
{
    let x = h.header_bytes();
    lemma_header_layout(h);
    assert(x =~= x.subrange(0, 148) + x.subrange(148, 156) + x.subrange(156, 512));
    lemma_byte_sum_concat(x.subrange(0, 148), x.subrange(148, 156));
    lemma_byte_sum_concat(x.subrange(0, 148) + x.subrange(148, 156), x.subrange(156, 512));
}

} // verus!
