//! What unpacking gives back of what packing wrote.

use crate::entar::{
    archive_bytes, content_blocks, entries_bytes, entry_blocks, entry_bytes, header_bytes_with_checksum,
    lemma_entry_bytes_len, path_field, size_field, slash_byte, spaces, type_flag_of, wrapper_header_bytes,
    EntarWrapper,
};
use crate::header::{block_count, byte_sum, checksum_field, zero_bytes, MAGIC_NUMBER, MAGIC_VERSION};
use crate::octal::{lemma_octal_len_upper, lemma_parse_padded_octal, pow8, trim_trailing_nul};
use crate::untar::{archive_entries, header_entry, scan_entries, stop_block, EntryView};
use vstd::prelude::*;

verus! {

/// Sizes below this (`8^11`) fit in the eleven digits of a size field.
pub open spec fn size_limit() -> nat {
    8589934592
}

/// The block at which entry `k` begins in an archive of the entries `ws`.
pub open spec fn start_block(ws: Seq<EntarWrapper>, k: nat) -> nat
    decreases k,
{
    if k == 0 {
        0
    } else {
        start_block(ws, (k - 1) as nat) + entry_blocks(ws[k - 1])
    }
}

/// An entry as `EntarWrapper::new` makes it, with the content that its
/// file holds: the size field holds its size, and a file's size fits in the
/// field and is the length of its content.
pub open spec fn entry_ok(w: EntarWrapper, content: Seq<u8>) -> bool {
    &&& w.instance.file_size@ == size_field(w.file_size as nat)
    &&& !w.is_folder ==> w.file_size < size_limit() && content.len() == w.file_size
}

/// What unpacking reports of entry `k`: the path as stored, without the NULs
/// after it; whether it is a folder; and for a file its size and the block
/// just after its header.
pub open spec fn expected_entry(ws: Seq<EntarWrapper>, k: int) -> EntryView {
    let w = ws[k];
    EntryView {
        path: trim_trailing_nul(w.instance.path@),
        is_folder: w.is_folder,
        file_size: if w.is_folder {
            0
        } else {
            w.file_size
        },
        seek_from: if w.is_folder {
            0
        } else {
            (start_block(ws, k as nat) + 1) as u64
        },
    }
}

pub open spec fn expected_entries(ws: Seq<EntarWrapper>) -> Seq<EntryView> {
    Seq::new(ws.len(), |k: int| expected_entry(ws, k))
}

proof fn lemma_entries_len(ws: Seq<EntarWrapper>, cs: Seq<Seq<u8>>, k: nat)
    requires
        k <= ws.len(),
        k <= cs.len(),
    ensures
        entries_bytes(ws, cs, k).len() == start_block(ws, k) * 512,
    decreases k,
{
    if k > 0 {
        lemma_entries_len(ws, cs, (k - 1) as nat);
        lemma_entry_bytes_len(ws[k - 1], cs[k - 1]);
    }
}

proof fn lemma_entries_prefix(ws: Seq<EntarWrapper>, cs: Seq<Seq<u8>>, j: nat, k: nat)
    requires
        j <= k <= ws.len(),
        k <= cs.len(),
    ensures
        entries_bytes(ws, cs, k).subrange(0, entries_bytes(ws, cs, j).len() as int) == entries_bytes(
            ws,
            cs,
            j,
        ),
    decreases k,
{
    if j == k {
        assert(entries_bytes(ws, cs, k).subrange(0, entries_bytes(ws, cs, k).len() as int)
            =~= entries_bytes(ws, cs, k));
    } else {
        lemma_entries_prefix(ws, cs, j, (k - 1) as nat);
        crate::entar::lemma_entries_bytes_prefix_len(ws, cs, j, (k - 1) as nat);
        let a = entries_bytes(ws, cs, (k - 1) as nat);
        let b = entry_bytes(ws[k - 1], cs[k - 1]);
        let l = entries_bytes(ws, cs, j).len() as int;
        assert((a + b).subrange(0, l) =~= a.subrange(0, l));
    }
}

proof fn lemma_start_increases(ws: Seq<EntarWrapper>, j: nat, k: nat)
    requires
        j < k <= ws.len(),
    ensures
        start_block(ws, j) < start_block(ws, k),
    decreases k,
{
    if j < k - 1 {
        lemma_start_increases(ws, j, (k - 1) as nat);
    }
}

/// Where the fields of an entry's header stand in its block.
proof fn lemma_header_fields(w: EntarWrapper)
    ensures
        wrapper_header_bytes(w).len() == 512,
        wrapper_header_bytes(w).subrange(0, 100) == w.instance.path@,
        wrapper_header_bytes(w).subrange(124, 136) == w.instance.file_size@,
        wrapper_header_bytes(w)[156] == type_flag_of(w.is_folder),
        wrapper_header_bytes(w).subrange(257, 263) == MAGIC_NUMBER@,
        wrapper_header_bytes(w).subrange(263, 265) == MAGIC_VERSION@,
{
    let cs = checksum_field(byte_sum(header_bytes_with_checksum(w, spaces())));
    assert(cs.len() == 8);
    let x = wrapper_header_bytes(w);
    assert(x.subrange(0, 100) =~= w.instance.path@);
    assert(x.subrange(124, 136) =~= w.instance.file_size@);
    assert(x.subrange(257, 263) =~= MAGIC_NUMBER@);
    assert(x.subrange(263, 265) =~= MAGIC_VERSION@);
}

/// Reading the header of an entry gives back the entry, and the next header
/// stands right after the entry's blocks.
proof fn lemma_read_entry_header(w: EntarWrapper, content: Seq<u8>, ci: nat)
    requires
        entry_ok(w, content),
    ensures
        header_entry(wrapper_header_bytes(w), ci) == Ok::<(EntryView, nat), crate::untar::UntarError>(
            (
                EntryView {
                    path: trim_trailing_nul(w.instance.path@),
                    is_folder: w.is_folder,
                    file_size: if w.is_folder {
                        0
                    } else {
                        w.file_size
                    },
                    seek_from: if w.is_folder {
                        0
                    } else {
                        (ci + 1) as u64
                    },
                },
                ci + entry_blocks(w),
            ),
        ),
{
    lemma_header_fields(w);
    let field = w.instance.file_size@;
    assert(field =~= crate::octal::padded_octal(w.file_size as nat, 11) + seq![0u8]);
    lemma_parse_padded_octal(w.file_size as nat, 11, seq![0u8]);
    if !w.is_folder {
        assert(pow8(11) == 8589934592) by {
            reveal_with_fuel(pow8, 12);
        }
        lemma_octal_len_upper(w.file_size as nat, 11);
    }
}

/// Entry `k` stands in the archive from its start block on.
proof fn lemma_entry_in_archive(ws: Seq<EntarWrapper>, cs: Seq<Seq<u8>>, k: int)
    requires
        0 <= k < ws.len() == cs.len(),
    ensures
        ({
            let from = start_block(ws, k as nat) * 512;
            let e = entry_bytes(ws[k], cs[k]);
            &&& from + e.len() <= archive_bytes(ws, cs).len()
            &&& forall|i: int|
                0 <= i < e.len() ==> #[trigger] archive_bytes(ws, cs)[from + i] == e[i]
        }),
{
    let n = ws.len();
    lemma_entries_len(ws, cs, k as nat);
    lemma_entries_len(ws, cs, (k + 1) as nat);
    lemma_entries_prefix(ws, cs, (k + 1) as nat, n);
    crate::entar::lemma_entries_bytes_prefix_len(ws, cs, (k + 1) as nat, n);
    let ek = entries_bytes(ws, cs, k as nat);
    let ek1 = entries_bytes(ws, cs, (k + 1) as nat);
    let en = entries_bytes(ws, cs, n);
    let e = entry_bytes(ws[k], cs[k]);
    let from = start_block(ws, k as nat) * 512;
    assert(ek1 == ek + e);
    assert forall|i: int| 0 <= i < e.len() implies #[trigger] archive_bytes(ws, cs)[from + i] == e[i] by {
        assert(en.subrange(0, ek1.len() as int) == ek1);
        assert(archive_bytes(ws, cs)[from + i] == en[from + i]);
        assert(en[from + i] == ek1[from + i]);
    }
}

/// The block at which entry `k` begins holds its header.
proof fn lemma_header_block_in_archive(ws: Seq<EntarWrapper>, cs: Seq<Seq<u8>>, k: int)
    requires
        0 <= k < ws.len() == cs.len(),
    ensures
        ({
            let s = start_block(ws, k as nat);
            &&& s * 512 + 512 <= archive_bytes(ws, cs).len()
            &&& archive_bytes(ws, cs).subrange((s * 512) as int, (s * 512 + 512) as int)
                == wrapper_header_bytes(ws[k])
        }),
{
    let a = archive_bytes(ws, cs);
    let s = start_block(ws, k as nat);
    let w = ws[k];
    lemma_entry_in_archive(ws, cs, k);
    lemma_entry_bytes_len(w, cs[k]);
    let block = a.subrange((s * 512) as int, (s * 512 + 512) as int);
    assert forall|i: int| 0 <= i < 512 implies block[i] == wrapper_header_bytes(w)[i] by {
        assert(a[s * 512 + i] == entry_bytes(w, cs[k])[i]);
    }
    assert(block =~= wrapper_header_bytes(w));
}

#[verifier::spinoff_prover]
proof fn lemma_scan_from(ws: Seq<EntarWrapper>, cs: Seq<Seq<u8>>, k: nat)
    requires
        k < ws.len() == cs.len(),
        forall|i: int| 0 <= i < ws.len() ==> #[trigger] entry_ok(ws[i], cs[i]),
    ensures
        scan_entries(archive_bytes(ws, cs), start_block(ws, k), start_block(ws, ws.len()))
            == Ok::<Seq<EntryView>, crate::untar::UntarError>(
            expected_entries(ws).subrange(k as int, ws.len() as int),
        ),
    decreases ws.len() - k,
{
    let n = ws.len();
    let s = start_block(ws, k);
    let w = ws[k as int];
    assert(entry_ok(w, cs[k as int]));
    lemma_header_block_in_archive(ws, cs, k as int);
    lemma_read_entry_header(w, cs[k as int], s);
    let e = expected_entry(ws, k as int);
    assert(start_block(ws, k + 1) == s + entry_blocks(w));
    if k + 1 == n {
        assert(expected_entries(ws).subrange(k as int, n as int) =~= seq![e]);
    } else {
        lemma_start_increases(ws, k + 1, n);
        lemma_scan_from(ws, cs, k + 1);
        assert(expected_entries(ws).subrange(k as int, n as int) =~= seq![e]
            + expected_entries(ws).subrange((k + 1) as int, n as int));
    }
}

/// Unpacking what packing wrote gives back every entry, in the order in
/// which they were packed: its path as stored in its header, whether it is a
/// folder, and for a file its size and where its content begins.
pub proof fn lemma_unpack_packed_entries(ws: Seq<EntarWrapper>, cs: Seq<Seq<u8>>)
    requires
        ws.len() >= 1,
        ws.len() == cs.len(),
        forall|i: int| 0 <= i < ws.len() ==> #[trigger] entry_ok(ws[i], cs[i]),
    ensures
        archive_entries(archive_bytes(ws, cs)) == Ok::<Seq<EntryView>, crate::untar::UntarError>(
            expected_entries(ws),
        ),
{
    let n = ws.len();
    lemma_entries_len(ws, cs, n);
    let a = archive_bytes(ws, cs);
    assert(a.len() == start_block(ws, n) * 512 + 1024);
    assert(stop_block(a.len()) == start_block(ws, n));
    lemma_scan_from(ws, cs, 0);
    assert(expected_entries(ws).subrange(0, n as int) =~= expected_entries(ws));
}


/// The content of every packed file stands in the archive right after its
/// header, so unpacking it gives back the content that was packed.
pub proof fn lemma_unpack_packed_content(ws: Seq<EntarWrapper>, cs: Seq<Seq<u8>>, k: int)
    requires
        0 <= k < ws.len() == cs.len(),
        forall|i: int| 0 <= i < ws.len() ==> #[trigger] entry_ok(ws[i], cs[i]),
        !ws[k].is_folder,
    ensures
        ({
            let from = (start_block(ws, k as nat) + 1) * 512;
            archive_bytes(ws, cs).subrange(from as int, from + ws[k].file_size) == cs[k]
        }),
{
    let w = ws[k];
    assert(entry_ok(w, cs[k]));
    let s = start_block(ws, k as nat);
    lemma_entry_in_archive(ws, cs, k);
    lemma_entry_bytes_len(w, cs[k]);
    let a = archive_bytes(ws, cs);
    let from = (s + 1) * 512;
    let size = w.file_size as int;
    assert(size <= block_count(size as nat) * 512);
    assert forall|i: int| 0 <= i < size implies a[from + i] == cs[k][i] by {
        assert(a[s * 512 + (512 + i)] == entry_bytes(w, cs[k])[512 + i]);
        assert(entry_bytes(w, cs[k])[512 + i] == content_blocks(size as nat, cs[k])[i]);
    }
    assert(a.subrange(from as int, from + size) =~= cs[k]);
}

/// The path stored for an entry reads back as the entry's relative path
/// (with `\` turned into `/`) where that path has at most 100 bytes and does
/// not end in a NUL.
pub proof fn lemma_path_field_read_back(rel: Seq<u8>)
    requires
        rel.len() <= 100,
        rel.len() > 0 ==> rel.last() != 0,
    ensures
        trim_trailing_nul(path_field(rel)) == rel.map_values(|b: u8| slash_byte(b)),
        trim_trailing_nul(path_field(rel)).len() == rel.len(),
        forall|i: int|
            0 <= i < rel.len() ==> trim_trailing_nul(path_field(rel))[i] == (if rel[i] == 92 {
                47u8
            } else {
                rel[i]
            }),
{
    let m = rel.map_values(|b: u8| slash_byte(b));
    assert(rel.take(rel.len() as int) =~= rel);
    lemma_trim_nuls_after(m, (100 - rel.len()) as nat);
    assert(path_field(rel) =~= m + zero_bytes((100 - rel.len()) as nat));
}

proof fn lemma_trim_nuls_after(p: Seq<u8>, k: nat)
    requires
        p.len() > 0 ==> p.last() != 0,
    ensures
        trim_trailing_nul(p + zero_bytes(k)) == p,
    decreases k,
{
    if k == 0 {
        assert(p + zero_bytes(0) =~= p);
        if p.len() > 0 {
            assert(trim_trailing_nul(p) == p);
        }
    } else {
        assert((p + zero_bytes(k)).drop_last() =~= p + zero_bytes((k - 1) as nat));
        lemma_trim_nuls_after(p, (k - 1) as nat);
    }
}

} // verus!
