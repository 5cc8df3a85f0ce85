//! Building header blocks for the entries of a folder that is packed.

use crate::header::{
    append_bytes, block_count, byte_sum, lemma_checksum_field_reads_back, lemma_header_checksum_bound, checksum_field, copy_from_block, header_checksum, lemma_byte_sum_concat, lemma_byte_sum_step, zero_bytes, CommonHeader, MAGIC_NUMBER,
    MAGIC_VERSION,
};
use crate::octal::{
    lemma_parse_padded_octal, parse_octal, lemma_octal_len_lower, lemma_octal_len_upper, octal_ascii, octal_digits,
    padded_octal, padded_octal_ascii, pow8,
};
use std::path::PathBuf;
use vstd::prelude::*;

verus! {

#[verifier::external_type_specification]
#[verifier::external_body]
pub struct ExPathBuf(PathBuf);

/// The fields of a header that come from the entry that it describes.
pub struct EntarInstance {
    pub path: [u8; 100],
    pub file_size: [u8; 12],
    pub modification_time: [u8; 12],
    pub mode: [u8; 8],
    pub checksum: [u8; 8],
}

/// An entry of the archive to be: a file or a folder, with its header
/// fields and the place on disk where its content is read.
pub struct EntarWrapper {
    pub is_folder: bool,
    pub instance: EntarInstance,
    pub file_size: u64,
    pub file_pointer: Box<PathBuf>,
}


/// A path separator as the archive writes it: `\` becomes `/`.
pub open spec fn slash_byte(b: u8) -> u8 {
    if b == 92 {
        47
    } else {
        b
    }
}

/// The path field of an entry whose path relative to the packed folder's
/// parent is `rel`: its first 100 bytes with `\` turned into `/`, padded
/// with NULs.
pub open spec fn path_field(rel: Seq<u8>) -> Seq<u8> {
    let l = if rel.len() < 100 {
        rel.len()
    } else {
        100
    };
    rel.take(l as int).map_values(|b: u8| slash_byte(b)) + zero_bytes((100 - l) as nat)
}

/// The size field: eleven octal digits (the first eleven where there are
/// more) and a NUL.
pub open spec fn size_field(size: nat) -> Seq<u8> {
    padded_octal(size, 11).push(0)
}

/// The modification time field: the eleven octal digits of the time in
/// seconds since the Unix epoch, and a NUL.
pub open spec fn time_field(secs: nat) -> Seq<u8> {
    octal_digits(secs).push(0)
}

/// The mode field: `0000444` for a read-only entry, `0000777` for any other.
pub open spec fn mode_field(readonly: bool) -> Seq<u8> {
    if readonly {
        seq![0x30u8, 0x30, 0x30, 0x30, 0x34, 0x34, 0x34, 0x00]
    } else {
        seq![0x30u8, 0x30, 0x30, 0x30, 0x37, 0x37, 0x37, 0x00]
    }
}

/// The smallest time, in seconds, that has eleven octal digits.
pub open spec fn min_time() -> nat {
    1073741824
}

/// The first time, in seconds, that has twelve octal digits.
pub open spec fn max_time() -> nat {
    8589934592
}

/// A time has eleven octal digits exactly when it lies in
/// `min_time()..max_time()`.
pub proof fn lemma_time_digits(secs: nat)
    requires
        min_time() <= secs < max_time(),
    ensures
        octal_digits(secs).len() == 11,
{
    assert(pow8(10) == 1073741824 && pow8(11) == 8589934592) by {
        reveal_with_fuel(pow8, 12);
    }
    lemma_octal_len_upper(secs, 11);
    lemma_octal_len_lower(secs, 11);
}

/// The path field holds the first 100 bytes of the relative path (all of it
/// where it is shorter), each byte unchanged but `\` (92), which becomes `/`
/// (47), and NULs after them.
pub proof fn lemma_path_field_bytes(rel: Seq<u8>)
    ensures
        path_field(rel).len() == 100,
        forall|i: int|
            0 <= i < 100 && i < rel.len() ==> path_field(rel)[i] == (if rel[i] == 92 {
                47u8
            } else {
                rel[i]
            }),
        forall|i: int| rel.len() <= i < 100 ==> path_field(rel)[i] == 0,
{
}

/// The size field reads back as a number, and as the size itself where the
/// size is below `8^11`; it ends in a NUL.
pub proof fn lemma_size_field_reads_back(size: nat)
    ensures
        size_field(size).len() == 12,
        size_field(size)[11] == 0,
        parse_octal(size_field(size)) is Some,
        size < 8589934592 ==> parse_octal(size_field(size)) == Some(size as u64),
{
    assert(size_field(size) =~= padded_octal(size, 11) + seq![0u8]);
    lemma_parse_padded_octal(size, 11, seq![0u8]);
    if size < 8589934592 {
        assert(pow8(11) == 8589934592) by {
            reveal_with_fuel(pow8, 12);
        }
        lemma_octal_len_upper(size, 11);
    }
}

/// The time field of a time with eleven octal digits reads back as that
/// time; it ends in a NUL.
pub proof fn lemma_time_field_reads_back(secs: nat)
    requires
        min_time() <= secs < max_time(),
    ensures
        time_field(secs).len() == 12,
        time_field(secs)[11] == 0,
        parse_octal(time_field(secs)) == Some(secs as u64),
{
    lemma_time_digits(secs);
    assert(padded_octal(secs, 11) =~= octal_digits(secs));
    assert(time_field(secs) =~= padded_octal(secs, 11) + seq![0u8]);
    lemma_parse_padded_octal(secs, 11, seq![0u8]);
}

impl EntarWrapper {
    /// Describes an entry: `rel_path` is its path relative to the parent
    /// of the packed folder, as UTF-8 bytes; `file_size`, `modified_secs`
    /// (seconds since the Unix epoch) and `readonly` come from its metadata;
    /// `file_pointer` is where its content is read. The checksum is left at
    /// zero: `as_header` computes it.
    pub fn new(
        file_pointer: PathBuf,
        rel_path: &[u8],
        is_folder: bool,
        file_size: u64,
        modified_secs: u64,
        readonly: bool,
    ) -> (w: Self)
        requires
            min_time() <= modified_secs < max_time(),
        ensures
            w.is_folder == is_folder,
            w.file_size == file_size,
            *w.file_pointer == file_pointer,
            w.instance.path@ == path_field(rel_path@),
            w.instance.file_size@ == size_field(file_size as nat),
            w.instance.modification_time@ == time_field(modified_secs as nat),
            w.instance.mode@ == mode_field(readonly),
            w.instance.checksum@ == zero_bytes(8),
            forall|i: int|
                0 <= i < 100 && i < rel_path@.len() ==> w.instance.path@[i] == (if rel_path@[i]
                    == 92 {
                    47u8
                } else {
                    rel_path@[i]
                }),
            forall|i: int| rel_path@.len() <= i < 100 ==> w.instance.path@[i] == 0,
            parse_octal(w.instance.file_size@) is Some,
            file_size < 8589934592 ==> parse_octal(w.instance.file_size@) == Some(file_size),
            w.instance.file_size@[11] == 0,
            parse_octal(w.instance.modification_time@) == Some(modified_secs),
            w.instance.modification_time@[11] == 0,
            w.instance.mode@ == (if readonly {
                seq![0x30u8, 0x30, 0x30, 0x30, 0x34, 0x34, 0x34, 0x00]
            } else {
                seq![0x30u8, 0x30, 0x30, 0x30, 0x37, 0x37, 0x37, 0x00]
            }),
    {
        proof {
            lemma_path_field_bytes(rel_path@);
            lemma_size_field_reads_back(file_size as nat);
            lemma_time_field_reads_back(modified_secs as nat);
        }
        let mut p: [u8; 100] = [0u8; 100];
        let len: usize = if rel_path.len() < 100 {
            rel_path.len()
        } else {
            100
        };
        let mut i: usize = 0;
        while i < len
            invariant
                i <= len <= 100,
                len <= rel_path@.len(),
                len == rel_path@.len() || len == 100,
                forall|k: int| 0 <= k < i ==> p@[k] == slash_byte(rel_path@[k]),
                forall|k: int| i <= k < 100 ==> p@[k] == 0,
            decreases len - i,
        {
            let b = rel_path[i];
            p[i] = if b == 92 {
                47
            } else {
                b
            };
            i = i + 1;
        }
        assert(p@ =~= path_field(rel_path@));

        let mut size_bytes = padded_octal_ascii(file_size, 11);
        size_bytes.push(0);
        let mut sz: [u8; 12] = [0x30u8; 12];
        copy_from_block(&mut sz, &size_bytes, 0);
        assert(sz@ =~= size_field(file_size as nat));

        proof {
            lemma_time_digits(modified_secs as nat);
        }
        let mut time_bytes = octal_ascii(modified_secs);
        time_bytes.push(0);
        let mut mdf_time: [u8; 12] = [0u8; 12];
        copy_from_block(&mut mdf_time, &time_bytes, 0);
        assert(mdf_time@ =~= time_field(modified_secs as nat));

        let mode: [u8; 8] = if readonly {
            [0x30, 0x30, 0x30, 0x30, 0x34, 0x34, 0x34, 0x00]
        } else {
            [0x30, 0x30, 0x30, 0x30, 0x37, 0x37, 0x37, 0x00]
        };
        assert(mode@ =~= mode_field(readonly));
        let checksum: [u8; 8] = [0u8; 8];
        assert(checksum@ =~= zero_bytes(8));
        EntarWrapper {
            is_folder,
            instance: EntarInstance {
                path: p,
                file_size: sz,
                modification_time: mdf_time,
                mode,
                checksum,
            },
            file_size,
            file_pointer: Box::new(file_pointer),
        }
    }
}


/// The owner and group fields: `0000000` and a NUL.
pub open spec fn owner_field() -> Seq<u8> {
    seq![0x30u8, 0x30, 0x30, 0x30, 0x30, 0x30, 0x30, 0x00]
}

/// The type flag of a folder (`5`) or of a regular file (`0`).
pub open spec fn type_flag_of(is_folder: bool) -> u8 {
    if is_folder {
        0x35
    } else {
        0x30
    }
}

/// The eight spaces that stand in the checksum field while the checksum is
/// computed.
pub open spec fn spaces() -> Seq<u8> {
    seq![0x20u8, 0x20, 0x20, 0x20, 0x20, 0x20, 0x20, 0x20]
}

/// The bytes of the header of `w` with `cs` in its checksum field.
pub open spec fn header_bytes_with_checksum(w: EntarWrapper, cs: Seq<u8>) -> Seq<u8> {
    w.instance.path@ + w.instance.mode@ + owner_field() + owner_field() + w.instance.file_size@
        + w.instance.modification_time@ + cs + seq![type_flag_of(w.is_folder)] + zero_bytes(100)
        + MAGIC_NUMBER@ + MAGIC_VERSION@ + zero_bytes(32) + zero_bytes(32) + zero_bytes(8)
        + zero_bytes(8) + zero_bytes(155) + zero_bytes(12)
}

/// The bytes of the header block of `w`: its checksum is the sum of the
/// block's bytes with spaces in the checksum field.
pub open spec fn wrapper_header_bytes(w: EntarWrapper) -> Seq<u8> {
    header_bytes_with_checksum(w, checksum_field(byte_sum(header_bytes_with_checksum(w, spaces()))))
}

proof fn lemma_sum_of_spaces()
    ensures
        byte_sum(seq![0x20u8, 0x20, 0x20, 0x20, 0x20, 0x20, 0x20, 0x20]) == 8 * 32,
{
    reveal_with_fuel(byte_sum, 9);
}

impl EntarWrapper {
    /// The header block of the entry, as `as_header` gives it.
    pub(crate) fn header_of(&self) -> (h: CommonHeader)
        ensures
            h.header_bytes() == wrapper_header_bytes(*self),
            h.path == self.instance.path,
            h.mode == self.instance.mode,
            h.file_size == self.instance.file_size,
            h.modification_time == self.instance.modification_time,
            h.owner_user@ == seq![0x30u8, 0x30, 0x30, 0x30, 0x30, 0x30, 0x30, 0x00],
            h.group_user@ == seq![0x30u8, 0x30, 0x30, 0x30, 0x30, 0x30, 0x30, 0x00],
            h.type_flag == (if self.is_folder {
                0x35u8
            } else {
                0x30u8
            }),
            h.ustar_indicator@ == seq![0x75u8, 0x73, 0x74, 0x61, 0x72, 0x20],
            h.ustar_version@ == seq![0x20u8, 0x00],
            forall|i: int| 0 <= i < 100 ==> h.type_info@[i] == 0,
            forall|i: int| 0 <= i < 32 ==> h.owner_user_name@[i] == 0,
            forall|i: int| 0 <= i < 32 ==> h.owner_group_name@[i] == 0,
            forall|i: int| 0 <= i < 8 ==> h.device_major@[i] == 0,
            forall|i: int| 0 <= i < 8 ==> h.device_minor@[i] == 0,
            forall|i: int| 0 <= i < 155 ==> h.filename_prefix@[i] == 0,
            forall|i: int| 0 <= i < 12 ==> h.paddings@[i] == 0,
            header_checksum(h) < 262144,
            parse_octal(h.checksum@.take(6)) == Some(header_checksum(h) as u64),
            h.checksum@[6] == 0,
            h.checksum@[7] == 0x20,
            h.owner_user@ == owner_field(),
            h.group_user@ == owner_field(),
            h.type_flag == type_flag_of(self.is_folder),
            h.ustar_indicator == MAGIC_NUMBER,
            h.ustar_version == MAGIC_VERSION,
            h.type_info@ == zero_bytes(100),
            h.owner_user_name@ == zero_bytes(32),
            h.owner_group_name@ == zero_bytes(32),
            h.device_major@ == zero_bytes(8),
            h.device_minor@ == zero_bytes(8),
            h.filename_prefix@ == zero_bytes(155),
            h.paddings@ == zero_bytes(12),
            h.checksum@ == checksum_field(header_checksum(h)),
    {
        let mut header = CommonHeader::new();
        proof {
            crate::header::lemma_zero_fields(header);
        }
        header.ustar_version = MAGIC_VERSION;
        header.ustar_indicator = MAGIC_NUMBER;
        header.file_size = self.instance.file_size;
        header.mode = self.instance.mode;
        header.modification_time = self.instance.modification_time;
        header.path = self.instance.path;
        header.checksum = [0x20, 0x20, 0x20, 0x20, 0x20, 0x20, 0x20, 0x20];
        header.owner_user = [0x30; 8];
        header.owner_user[7] = 0x00;
        header.group_user = [0x30; 8];
        header.group_user[7] = 0x00;
        if self.is_folder {
            header.type_flag = 0x35;
        } else {
            header.type_flag = 0x30;
        }
        let buffer = header.to_bytes();
        let mut sum: u64 = 0;
        let mut i: usize = 0;
        while i < buffer.len()
            invariant
                i <= buffer@.len() == 512,
                sum == byte_sum(buffer@.take(i as int)),
                sum <= 255 * i,
            decreases buffer.len() - i,
        {
            proof {
                lemma_byte_sum_step(buffer@, i as int);
            }
            sum = sum + buffer[i] as u64;
            i = i + 1;
        }
        let ghost spaced = header.header_bytes();
        assert(buffer@.take(512) =~= buffer@);
        let mut cs_bytes = padded_octal_ascii(sum, 6);
        cs_bytes.push(0x00);
        cs_bytes.push(0x20);
        let mut cs: [u8; 8] = [0x30u8; 8];
        copy_from_block(&mut cs, &cs_bytes, 0);
        header.checksum = cs;
        proof {
            let b = header.header_bytes();
            assert(spaced =~= spaced.subrange(0, 148) + spaced.subrange(148, 156) + spaced.subrange(
                156,
                512,
            ));
            assert(spaced.subrange(0, 148) =~= b.subrange(0, 148));
            assert(spaced.subrange(156, 512) =~= b.subrange(156, 512));
            assert(spaced.subrange(148, 156) =~= seq![0x20u8, 0x20, 0x20, 0x20, 0x20, 0x20, 0x20, 0x20]);
            lemma_sum_of_spaces();
            lemma_byte_sum_concat(spaced.subrange(0, 148), spaced.subrange(148, 156));
            lemma_byte_sum_concat(
                spaced.subrange(0, 148) + spaced.subrange(148, 156),
                spaced.subrange(156, 512),
            );
            assert(cs@ =~= checksum_field(header_checksum(header)));
            assert(header.owner_user@ =~= owner_field());
            assert(header.group_user@ =~= owner_field());
            assert(spaced =~= header_bytes_with_checksum(*self, spaces()));
            assert(header.header_bytes() =~= wrapper_header_bytes(*self));
            lemma_header_checksum_bound(header);
            lemma_checksum_field_reads_back(header_checksum(header));
        }
        header
    }

    /// The header block of the entry: its own fields, owner and group
    /// `0000000`, the type flag of a folder or a file, the ustar indicator
    /// and version, zeros elsewhere, and in the checksum field the sum of
    /// all the block's bytes, counting the checksum field as spaces.
    pub fn as_header(self) -> (h: CommonHeader)
        ensures
            h.header_bytes() == wrapper_header_bytes(self),
            h.path == self.instance.path,
            h.mode == self.instance.mode,
            h.file_size == self.instance.file_size,
            h.modification_time == self.instance.modification_time,
            h.owner_user@ == seq![0x30u8, 0x30, 0x30, 0x30, 0x30, 0x30, 0x30, 0x00],
            h.group_user@ == seq![0x30u8, 0x30, 0x30, 0x30, 0x30, 0x30, 0x30, 0x00],
            h.type_flag == (if self.is_folder {
                0x35u8
            } else {
                0x30u8
            }),
            h.ustar_indicator@ == seq![0x75u8, 0x73, 0x74, 0x61, 0x72, 0x20],
            h.ustar_version@ == seq![0x20u8, 0x00],
            forall|i: int| 0 <= i < 100 ==> h.type_info@[i] == 0,
            forall|i: int| 0 <= i < 32 ==> h.owner_user_name@[i] == 0,
            forall|i: int| 0 <= i < 32 ==> h.owner_group_name@[i] == 0,
            forall|i: int| 0 <= i < 8 ==> h.device_major@[i] == 0,
            forall|i: int| 0 <= i < 8 ==> h.device_minor@[i] == 0,
            forall|i: int| 0 <= i < 155 ==> h.filename_prefix@[i] == 0,
            forall|i: int| 0 <= i < 12 ==> h.paddings@[i] == 0,
            h.checksum@ == checksum_field(header_checksum(h)),
            header_checksum(h) < 262144,
            parse_octal(h.checksum@.take(6)) == Some(header_checksum(h) as u64),
            h.checksum@[6] == 0,
            h.checksum@[7] == 0x20,
    {
        let h = self.header_of();
        proof {
            lemma_header_checksum_bound(h);
            lemma_checksum_field_reads_back(header_checksum(h));
        }
        h
    }
}


/// The blocks that hold a file's content in the archive: `size` bytes
/// rounded up to whole blocks, taken from `content` and filled up with
/// zeros where `content` ends first.
pub open spec fn content_blocks(size: nat, content: Seq<u8>) -> Seq<u8> {
    Seq::new(
        block_count(size) * 512,
        |i: int|
            if i < content.len() {
                content[i]
            } else {
                0u8
            },
    )
}

/// What an entry adds to the archive: its header block, then for a file
/// the blocks of its content.
pub open spec fn entry_bytes(w: EntarWrapper, content: Seq<u8>) -> Seq<u8> {
    wrapper_header_bytes(w) + if w.is_folder {
        Seq::empty()
    } else {
        content_blocks(w.file_size as nat, content)
    }
}

/// The number of blocks that an entry takes up in the archive.
pub open spec fn entry_blocks(w: EntarWrapper) -> nat {
    1 + if w.is_folder {
        0
    } else {
        block_count(w.file_size as nat)
    }
}

/// The first `k` entries one after the other.
pub open spec fn entries_bytes(ws: Seq<EntarWrapper>, contents: Seq<Seq<u8>>, k: nat) -> Seq<u8>
    decreases k,
{
    if k == 0 {
        Seq::empty()
    } else {
        entries_bytes(ws, contents, (k - 1) as nat) + entry_bytes(ws[k - 1], contents[k - 1])
    }
}

/// A whole archive: the entries one after the other, then two zero blocks.
pub open spec fn archive_bytes(ws: Seq<EntarWrapper>, contents: Seq<Seq<u8>>) -> Seq<u8> {
    entries_bytes(ws, contents, ws.len()) + zero_bytes(1024)
}

/// The views of a list of contents.
pub open spec fn content_views(contents: Seq<Vec<u8>>) -> Seq<Seq<u8>> {
    contents.map_values(|c: Vec<u8>| c@)
}

/// The blocks of content of a file of `size` bytes: `content` cut or
/// filled up with zeros to the whole blocks that `size` bytes take up.
pub fn content_to_blocks(size: u64, content: &[u8]) -> (blocks: Vec<u8>)
    requires
        block_count(size as nat) * 512 <= usize::MAX,
    ensures
        blocks@ == content_blocks(size as nat, content@),
{
    let n: usize = ((size / 512) as usize + if size % 512 == 0 {
        0
    } else {
        1
    }) * 512;
    assert(n == block_count(size as nat) * 512);
    let mut blocks: Vec<u8> = Vec::with_capacity(n);
    let mut i: usize = 0;
    while i < n
        invariant
            i <= n,
            n == block_count(size as nat) * 512,
            blocks@ == content_blocks(size as nat, content@).take(i as int),
        decreases n - i,
    {
        if i < content.len() {
            blocks.push(content[i]);
        } else {
            blocks.push(0);
        }
        i = i + 1;
        assert(blocks@ =~= content_blocks(size as nat, content@).take(i as int));
    }
    assert(blocks@ =~= content_blocks(size as nat, content@));
    blocks
}

impl EntarWrapper {
    /// What the entry adds to the archive: its header block, then for a
    /// file the blocks of its content, read from `content` (filled up with
    /// zeros where `content` is shorter than the size in the header).
    pub fn encode_entry(&self, content: &[u8]) -> (bytes: Vec<u8>)
        requires
            entry_blocks(*self) * 512 <= usize::MAX,
        ensures
            bytes@ == entry_bytes(*self, content@),
    {
        let header = self.header_of();
        let mut bytes = header.to_bytes();
        if !self.is_folder {
            let blocks = content_to_blocks(self.file_size, content);
            append_bytes(&mut bytes, &blocks);
        } else {
            assert(bytes@ =~= bytes@ + Seq::<u8>::empty());
        }
        bytes
    }
}

/// The two zero blocks that close an archive.
pub fn closing_blocks() -> (bytes: Vec<u8>)
    ensures
        bytes@ == zero_bytes(1024),
{
    let mut bytes: Vec<u8> = Vec::with_capacity(1024);
    let mut i: usize = 0;
    while i < 1024
        invariant
            i <= 1024,
            bytes@ == zero_bytes(i as nat),
        decreases 1024 - i,
    {
        bytes.push(0);
        i = i + 1;
        assert(bytes@ =~= zero_bytes(i as nat));
    }
    bytes
}

/// Packs the entries `entries`, whose contents are `contents`, into a whole
/// archive: each entry's header and content blocks in turn, then two zero
/// blocks.
pub fn entar_archive(entries: &Vec<EntarWrapper>, contents: &Vec<Vec<u8>>) -> (archive: Vec<u8>)
    requires
        entries@.len() == contents@.len(),
        archive_bytes(entries@, content_views(contents@)).len() <= usize::MAX,
    ensures
        archive@ == archive_bytes(entries@, content_views(contents@)),
{
    let ghost ws = entries@;
    let ghost cs = content_views(contents@);
    let mut archive: Vec<u8> = Vec::new();
    let mut k: usize = 0;
    while k < entries.len()
        invariant
            k <= ws.len() == cs.len() == entries@.len() == contents@.len(),
            ws == entries@,
            cs == content_views(contents@),
            archive_bytes(ws, cs).len() <= usize::MAX,
            archive@ == entries_bytes(ws, cs, k as nat),
        decreases ws.len() - k,
    {
        proof {
            lemma_entries_bytes_prefix_len(ws, cs, (k + 1) as nat, ws.len());
            lemma_entry_bytes_len(ws[k as int], cs[k as int]);
            assert(entries_bytes(ws, cs, (k + 1) as nat) == entries_bytes(ws, cs, k as nat)
                + entry_bytes(ws[k as int], cs[k as int]));
            assert(cs[k as int] == contents@[k as int]@);
        }
        let w = &entries[k];
        let bytes = w.encode_entry(contents[k].as_slice());
        append_bytes(&mut archive, &bytes);
        k = k + 1;
    }
    let end = closing_blocks();
    append_bytes(&mut archive, &end);
    archive
}

/// The length of an entry in the archive.
pub proof fn lemma_entry_bytes_len(w: EntarWrapper, content: Seq<u8>)
    ensures
        wrapper_header_bytes(w).len() == 512,
        entry_bytes(w, content).len() == entry_blocks(w) * 512,
{
    assert(checksum_field(byte_sum(header_bytes_with_checksum(w, spaces()))).len() == 8);
}

/// The first `j` entries are never longer than the first `k`, for `j <= k`.
pub proof fn lemma_entries_bytes_prefix_len(
    ws: Seq<EntarWrapper>,
    contents: Seq<Seq<u8>>,
    j: nat,
    k: nat,
)
    requires
        j <= k <= ws.len(),
        k <= contents.len(),
    ensures
        entries_bytes(ws, contents, j).len() <= entries_bytes(ws, contents, k).len(),
    decreases k,
{
    if j < k {
        lemma_entries_bytes_prefix_len(ws, contents, j, (k - 1) as nat);
    }
}

} // verus!
