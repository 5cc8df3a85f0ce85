//! Reading the entries of an archive back from its header blocks.

use crate::header::{block_count, CommonHeader, MAGIC_NUMBER, MAGIC_VERSION};
use crate::octal::{parse_octal, parse_octal_field, trim_trailing_nul};
use vstd::prelude::*;

verus! {

/// What an entry of an archive is, as the header blocks tell it.
pub ghost struct EntryView {
    pub path: Seq<u8>,
    pub is_folder: bool,
    pub file_size: u64,
    pub seek_from: u64,
}


/// An entry found in an archive: its path as stored in the header (NULs at
/// the end dropped), whether it is a folder, and for a file its size and the
/// block at which its content starts.
#[derive(Debug, PartialEq, Eq)]
pub struct UntarInstance {
    pub path: Vec<u8>,
    pub is_folder: bool,
    pub file_size: u64,
    pub seek_from: u64,
}

/// Why an archive is refused.
#[derive(Debug, Clone, Copy, PartialEq, Eq)]
pub enum UntarError {
    /// A header block does not hold the ustar indicator `"ustar "`: maybe a
    /// long-link archive, or no header at all.
    UstarIndicator,
    /// A header block does not hold the ustar version `" \0"`.
    UstarVersion,
    /// The size field of a header block is not an octal number.
    FileSize,
}

impl UntarInstance {
    pub open spec fn view(&self) -> EntryView {
        EntryView {
            path: self.path@,
            is_folder: self.is_folder,
            file_size: self.file_size,
            seek_from: self.seek_from,
        }
    }

    pub fn new(path: Vec<u8>, is_folder: bool, file_size: u64, seek_from: u64) -> (inst: Self)
        ensures
            inst.path@ == path@,
            inst.is_folder == is_folder,
            inst.file_size == file_size,
            inst.seek_from == seek_from,
    {
        UntarInstance { path, is_folder, file_size, seek_from }
    }
}

/// Reading the header block `block`, found at block `chunk_index`: the entry
/// it describes, and the block at which the next header stands.
pub open spec fn header_entry(block: Seq<u8>, chunk_index: nat) -> Result<(EntryView, nat), UntarError> {
    if block.subrange(257, 263) != MAGIC_NUMBER@ {
        Err(UntarError::UstarIndicator)
    } else if block.subrange(263, 265) != MAGIC_VERSION@ {
        Err(UntarError::UstarVersion)
    } else {
        match parse_octal(block.subrange(124, 136)) {
            None => Err(UntarError::FileSize),
            Some(size) => {
                let path = trim_trailing_nul(block.subrange(0, 100));
                let next = chunk_index + 1;
                if block[156] == 0x35 {
                    Ok((EntryView { path, is_folder: true, file_size: 0, seek_from: 0 }, next))
                } else {
                    Ok(
                        (
                            EntryView {
                                path,
                                is_folder: false,
                                file_size: size,
                                seek_from: next as u64,
                            },
                            next + block_count(size as nat),
                        ),
                    )
                }
            },
        }
    }
}

/// Whether two byte strings are equal.
fn bytes_equal(a: &[u8], b: &[u8]) -> (eq: bool)
    ensures
        eq == (a@ == b@),
{
    if a.len() != b.len() {
        return false;
    }
    let mut i: usize = 0;
    while i < a.len()
        invariant
            i <= a@.len() == b@.len(),
            forall|k: int| 0 <= k < i ==> a@[k] == b@[k],
        decreases a.len() - i,
    {
        if a[i] != b[i] {
            return false;
        }
        i = i + 1;
    }
    assert(a@ =~= b@);
    true
}

/// `field` without the NUL bytes at its end.
fn trimmed_path(field: &[u8]) -> (path: Vec<u8>)
    ensures
        path@ == trim_trailing_nul(field@),
{
    let mut end: usize = field.len();
    assert(field@.subrange(0, end as int) =~= field@);
    while end > 0 && field[end - 1] == 0
        invariant
            end <= field.len(),
            trim_trailing_nul(field@) == trim_trailing_nul(field@.subrange(0, end as int)),
        decreases end,
    {
        assert(field@.subrange(0, end as int).drop_last() =~= field@.subrange(0, end - 1));
        end = end - 1;
    }
    let mut path: Vec<u8> = Vec::with_capacity(end);
    let mut i: usize = 0;
    while i < end
        invariant
            i <= end <= field.len(),
            path@ == field@.subrange(0, i as int),
        decreases end - i,
    {
        path.push(field[i]);
        i = i + 1;
        assert(path@ =~= field@.subrange(0, i as int));
    }
    path
}

/// A size field of twelve bytes holds less than `2^36`.
proof fn lemma_size_field_bound(field: Seq<u8>)
    requires
        field.len() == 12,
        parse_octal(field) is Some,
    ensures
        parse_octal(field).unwrap() < 0x10_0000_0000,
{
    let d = crate::octal::unsigned_digits(trim_trailing_nul(field));
    crate::octal::lemma_trim_len(field);
    crate::octal::lemma_octal_value_bound(d);
    crate::octal::lemma_pow8_monotone(d.len(), 12);
    assert(crate::octal::pow8(12) == 0x10_0000_0000) by {
        reveal_with_fuel(crate::octal::pow8, 13);
    }
}

/// Reads the header block found at block `chunk_index` of an archive: the
/// entry that it describes and the block at which the next header stands
/// (the one after it for a folder, the one after the file's content for a
/// file).
pub fn read_header(block: &[u8], chunk_index: u64) -> (res: Result<(UntarInstance, u64), UntarError>)
    requires
        block@.len() == 512,
        chunk_index < 0x40_0000_0000_0000,
    ensures
        match (res, header_entry(block@, chunk_index as nat)) {
            (Ok((inst, next)), Ok((e, n))) => inst@ == e && next == n,
            (Err(a), Err(b)) => a == b,
            _ => false,
        },
        res matches Ok((_, next)) ==> chunk_index < next <= chunk_index + 0x1000_0000,
{
    let header = CommonHeader::from_bytes(block);
    let ghost b = block@;
    proof {
        let x = header.header_bytes();
        assert(header.ustar_indicator@ =~= b.subrange(257, 263));
        assert(header.ustar_version@ =~= b.subrange(263, 265));
        assert(header.file_size@ =~= b.subrange(124, 136));
        assert(header.path@ =~= b.subrange(0, 100));
        assert(header.type_flag == b[156]);
    }
    if !bytes_equal(&header.ustar_indicator, &MAGIC_NUMBER) {
        return Err(UntarError::UstarIndicator);
    }
    if !bytes_equal(&header.ustar_version, &MAGIC_VERSION) {
        return Err(UntarError::UstarVersion);
    }
    let file_size = match parse_octal_field(&header.file_size) {
        Some(fsz) => fsz,
        None => {
            return Err(UntarError::FileSize);
        },
    };
    proof {
        lemma_size_field_bound(header.file_size@);
    }
    let path = trimmed_path(&header.path);
    let next = chunk_index + 1;
    if header.type_flag == 0x35 {
        Ok((UntarInstance::new(path, true, 0, 0), next))
    } else {
        let offset = (file_size + 511) / 512;
        Ok((UntarInstance::new(path, false, file_size, next), next + offset))
    }
}


/// The block of an archive of `len` bytes at which reading stops: the first
/// of the two zero blocks that end it.
pub open spec fn stop_block(len: nat) -> nat {
    (len / 512 - 2) as nat
}

/// The block at which reading an archive of `archive_len` bytes stops, where
/// its two closing zero blocks begin.
pub fn stop_index(archive_len: u64) -> (stop: u64)
    requires
        archive_len >= 1024,
    ensures
        stop == stop_block(archive_len as nat),
{
    archive_len / 512 - 2
}

/// How far reading from block `chunk_index` is from the end of `archive`.
pub open spec fn blocks_left(archive: Seq<u8>, chunk_index: nat) -> nat {
    if chunk_index * 512 <= archive.len() {
        (archive.len() - chunk_index * 512) as nat
    } else {
        0
    }
}

/// The entries of `archive` read from block `chunk_index` on: header after
/// header, each found where the one before says the next one stands, until
/// the next one would be at block `stop` or no whole block is left; the
/// first header that cannot be read refuses the archive.
pub open spec fn scan_entries(archive: Seq<u8>, chunk_index: nat, stop: nat) -> Result<
    Seq<EntryView>,
    UntarError,
>
    decreases blocks_left(archive, chunk_index),
{
    if chunk_index * 512 + 512 > archive.len() {
        Ok(Seq::empty())
    } else {
        let block = archive.subrange((chunk_index * 512) as int, (chunk_index * 512 + 512) as int);
        match header_entry(block, chunk_index) {
            Err(e) => Err(e),
            Ok((e, next)) => {
                if next == stop {
                    Ok(seq![e])
                } else {
                    match scan_entries(archive, next, stop) {
                        Err(err) => Err(err),
                        Ok(rest) => Ok(seq![e] + rest),
                    }
                }
            },
        }
    }
}

/// The entries of a whole archive, read from its first block on.
pub open spec fn archive_entries(archive: Seq<u8>) -> Result<Seq<EntryView>, UntarError> {
    scan_entries(archive, 0, stop_block(archive.len()))
}


/// `found` followed by what a further scan gives, or that scan's error.
pub open spec fn after(found: Seq<EntryView>, rest: Result<Seq<EntryView>, UntarError>) -> Result<
    Seq<EntryView>,
    UntarError,
> {
    match rest {
        Ok(r) => Ok(found + r),
        Err(e) => Err(e),
    }
}

/// The views of a list of found entries.
pub open spec fn views(infos: Seq<UntarInstance>) -> Seq<EntryView> {
    infos.map_values(|i: UntarInstance| i@)
}

/// Reads the entries of an archive held in memory, header by header, as
/// `archive_entries` describes: from the first block on, each header is
/// read where the one before says the next one stands, until the next one
/// would be at the first of the two closing zero blocks or no whole block
/// is left. The first header that cannot be read refuses the archive.
pub fn read_entries(archive: &[u8]) -> (res: Result<Vec<UntarInstance>, UntarError>)
    requires
        1024 <= archive@.len() < 0x4000_0000_0000_0000,
    ensures
        match (res, archive_entries(archive@)) {
            (Ok(infos), Ok(entries)) => views(infos@) == entries,
            (Err(a), Err(b)) => a == b,
            _ => false,
        },
{
    let alen: usize = archive.len();
    let len = alen as u64;
    let stop = stop_index(len);
    let mut infos: Vec<UntarInstance> = Vec::new();
    let mut chunk_index: u64 = 0;
    assert(views(infos@) =~= Seq::<EntryView>::empty());
    assert(after(Seq::empty(), scan_entries(archive@, 0, stop as nat)) == scan_entries(archive@, 0, stop as nat)) by {
        match scan_entries(archive@, 0, stop as nat) {
            Ok(r) => {
                assert(Seq::<EntryView>::empty() + r =~= r);
            },
            Err(e) => {},
        }
    }
    loop
        invariant
            len == alen == archive@.len() < 0x4000_0000_0000_0000,
            stop == stop_block(len as nat),
            chunk_index < 0x40_0000_0000_0000,
            archive_entries(archive@) == after(
                views(infos@),
                scan_entries(archive@, chunk_index as nat, stop as nat),
            ),
        decreases blocks_left(archive@, chunk_index as nat),
    {
        let pos = chunk_index * 512;
        if pos + 512 > len {
            assert(views(infos@) + Seq::<EntryView>::empty() =~= views(infos@));
            return Ok(infos);
        }
        let start = pos as usize;
        let end = (pos + 512) as usize;
        let block = vstd::slice::slice_subrange(archive, start, end);
        let ghost old_views = views(infos@);
        match read_header(block, chunk_index) {
            Err(e) => {
                return Err(e);
            },
            Ok((inst, next)) => {
                infos.push(inst);
                assert(views(infos@) =~= old_views + seq![inst@]);
                chunk_index = next;
                if chunk_index == stop {
                    return Ok(infos);
                }
                proof {
                    match scan_entries(archive@, next as nat, stop as nat) {
                        Ok(r) => {
                            assert(old_views + (seq![inst@] + r) =~= views(infos@) + r);
                        },
                        Err(e) => {},
                    }
                }
            },
        }
    }
}


/// The content of a file entry: the `file_size` bytes from the block
/// `seek_from` on.
pub fn extract_content(archive: &[u8], inst: &UntarInstance) -> (content: Vec<u8>)
    requires
        inst.seek_from as int * 512 + inst.file_size <= archive@.len(),
    ensures
        content@ == archive@.subrange(
            inst.seek_from as int * 512,
            inst.seek_from as int * 512 + inst.file_size,
        ),
{
    let alen: usize = archive.len();
    assert(inst.seek_from * 512 <= alen);
    let start: usize = (inst.seek_from * 512) as usize;
    let size: usize = inst.file_size as usize;
    let end: usize = start + size;
    let mut content: Vec<u8> = Vec::with_capacity(size);
    let mut i: usize = start;
    while i < end
        invariant
            start <= i <= end <= archive@.len(),
            start == inst.seek_from as int * 512,
            end == start + inst.file_size,
            content@ == archive@.subrange(start as int, i as int),
        decreases end - i,
    {
        content.push(archive[i]);
        i = i + 1;
        assert(content@ =~= archive@.subrange(start as int, i as int));
    }
    content
}

} // verus!
