use std::path::PathBuf;

use rust_tar::entar::{closing_blocks, content_to_blocks, entar_archive, EntarWrapper};
use rust_tar::header::{CommonHeader, MAGIC_NUMBER, MAGIC_VERSION};
use rust_tar::octal::{octal_ascii, padded_octal_ascii, parse_octal_field};
use rust_tar::untar::{extract_content, read_entries, read_header, stop_index, UntarError, UntarInstance};
use rust_tar::walk::{plan_listing, EntryKind};

const MTIME: u64 = 1700000000;

fn folder(rel: &[u8]) -> EntarWrapper {
    EntarWrapper::new(PathBuf::from("/src"), rel, true, 4096, MTIME, false)
}

fn file(rel: &[u8], size: u64) -> EntarWrapper {
    EntarWrapper::new(PathBuf::from("/src/f"), rel, false, size, MTIME, false)
}

fn header_block(w: EntarWrapper) -> Vec<u8> {
    w.as_header().to_bytes()
}

fn checksum_of(block: &[u8]) -> u64 {
    let mut sum: u64 = 0;
    for (i, b) in block.iter().enumerate() {
        if (148..156).contains(&i) {
            sum += 0x20;
        } else {
            sum += *b as u64;
        }
    }
    sum
}

#[test]
fn test_header_size() {
    assert_eq!(std::mem::size_of::<CommonHeader>(), 512); // a header must be 512 size or a chunk
}

#[test]
fn octal_ascii_writes_like_format() {
    assert_eq!(octal_ascii(0), b"0".to_vec());
    assert_eq!(octal_ascii(7), b"7".to_vec());
    assert_eq!(octal_ascii(8), b"10".to_vec());
    assert_eq!(octal_ascii(4096), b"10000".to_vec());
    assert_eq!(octal_ascii(MTIME), b"14524770400".to_vec());
    assert_eq!(octal_ascii(u64::MAX), format!("{:o}", u64::MAX).into_bytes());
}

#[test]
fn padded_octal_pads_and_cuts() {
    assert_eq!(padded_octal_ascii(10, 6), b"000012".to_vec());
    assert_eq!(padded_octal_ascii(0, 3), b"000".to_vec());
    assert_eq!(padded_octal_ascii(8589934592, 11), b"10000000000".to_vec());
}

#[test]
fn parse_octal_field_reads_like_from_str_radix() {
    assert_eq!(parse_octal_field(b"00000000012\0"), Some(10));
    assert_eq!(parse_octal_field(b"00000010000\0"), Some(4096));
    assert_eq!(parse_octal_field(b"7\0\0\0"), Some(7));
    assert_eq!(parse_octal_field(b"+17\0"), Some(15));
    assert_eq!(parse_octal_field(b"1777777777777777777777"), Some(u64::MAX));
    assert_eq!(parse_octal_field(b""), None);
    assert_eq!(parse_octal_field(b"\0\0\0\0"), None);
    assert_eq!(parse_octal_field(b"+"), None);
    assert_eq!(parse_octal_field(b"-1"), None);
    assert_eq!(parse_octal_field(b"18"), None);
    assert_eq!(parse_octal_field(b"0000012 \0"), None);
    assert_eq!(parse_octal_field(b"2000000000000000000000"), None);
    assert_eq!(parse_octal_field(b"\0012"), None);
}

#[test]
fn new_header_is_all_zero() {
    let h = CommonHeader::new();
    assert_eq!(h.to_bytes(), vec![0u8; 512]);
}

#[test]
fn header_bytes_read_back() {
    let block: Vec<u8> = (0..512).map(|i| (i * 7 % 251) as u8).collect();
    let h = CommonHeader::from_bytes(&block);
    assert_eq!(h.to_bytes(), block);
    assert_eq!(h.path[0], block[0]);
    assert_eq!(h.file_size[0], block[124]);
    assert_eq!(h.type_flag, block[156]);
    assert_eq!(h.ustar_indicator[0], block[257]);
    assert_eq!(h.paddings[11], block[511]);
}

#[test]
fn wrapper_fields() {
    let w = EntarWrapper::new(PathBuf::from("/a/b\\c.txt"), b"b\\c.txt", false, 10, MTIME, true);
    assert!(!w.is_folder);
    assert_eq!(w.file_size, 10);
    assert_eq!(*w.file_pointer, PathBuf::from("/a/b\\c.txt"));
    assert_eq!(&w.instance.path[..8], b"b/c.txt\0");
    assert_eq!(w.instance.path[7..], [0u8; 93]);
    assert_eq!(&w.instance.file_size, b"00000000012\0");
    assert_eq!(&w.instance.modification_time, b"14524770400\0");
    assert_eq!(&w.instance.mode, b"0000444\0");
    assert_eq!(w.instance.checksum, [0u8; 8]);
    let rw = EntarWrapper::new(PathBuf::from("/a"), b"a", true, 4096, MTIME, false);
    assert_eq!(&rw.instance.mode, b"0000777\0");
    assert_eq!(&rw.instance.file_size, b"00000010000\0");
}

#[test]
fn wrapper_long_path_is_cut_to_hundred_bytes() {
    let rel = vec![b'x'; 150];
    let w = file(&rel, 1);
    assert_eq!(w.instance.path, [b'x'; 100]);
}

#[test]
fn as_header_fills_the_block() {
    let h = folder(b"test_files").as_header();
    let bytes = h.to_bytes();
    assert_eq!(&bytes[..10], b"test_files");
    assert_eq!(&bytes[100..108], b"0000777\0");
    assert_eq!(&bytes[108..116], b"0000000\0");
    assert_eq!(&bytes[116..124], b"0000000\0");
    assert_eq!(&bytes[124..136], b"00000010000\0");
    assert_eq!(&bytes[136..148], b"14524770400\0");
    assert_eq!(&bytes[148..156], b"010036\0 ");
    assert_eq!(bytes[156], b'5');
    assert_eq!(&bytes[257..263], &MAGIC_NUMBER);
    assert_eq!(&bytes[263..265], &MAGIC_VERSION);
    assert!(bytes[265..].iter().all(|b| *b == 0));
}

#[test]
fn as_header_checksum_is_sum_with_spaces() {
    let w = EntarWrapper::new(PathBuf::from("/x"), b"test_files\\long.txt", false, 5, MTIME, true);
    let bytes = header_block(w);
    assert_eq!(bytes[156], b'0');
    assert_eq!(&bytes[148..156], b"011601\0 ");
    assert_eq!(checksum_of(&bytes), 4993);
    let w2 = file(b"some/where/else.bin", 123456);
    let bytes2 = header_block(w2);
    let expected = format!("{:06o}\0 ", checksum_of(&bytes2));
    assert_eq!(&bytes2[148..156], expected.as_bytes());
}

#[test]
fn content_blocks_pad_and_cut() {
    assert_eq!(content_to_blocks(0, b""), Vec::<u8>::new());
    let b = content_to_blocks(3, b"abc");
    assert_eq!(b.len(), 512);
    assert_eq!(&b[..3], b"abc");
    assert!(b[3..].iter().all(|x| *x == 0));
    assert_eq!(content_to_blocks(512, &[1u8; 512]).len(), 512);
    assert_eq!(content_to_blocks(513, &[1u8; 513]).len(), 1024);
    let cut = content_to_blocks(2, &[9u8; 700]);
    assert_eq!(cut.len(), 512);
    assert!(cut.iter().all(|x| *x == 9));
}

#[test]
fn encode_entry_of_folder_and_file() {
    let f = folder(b"d");
    let bytes = f.encode_entry(b"ignored");
    assert_eq!(bytes.len(), 512);
    let g = file(b"d/x", 600);
    let content = vec![7u8; 600];
    let bytes = g.encode_entry(&content);
    assert_eq!(bytes.len(), 512 * 3);
    assert_eq!(&bytes[512..1112], &content[..]);
    assert!(bytes[1112..].iter().all(|x| *x == 0));
    assert_eq!(closing_blocks(), vec![0u8; 1024]);
}

#[test]
fn read_header_of_folder_and_file() {
    let (inst, next) = read_header(&header_block(folder(b"top")), 0).unwrap();
    assert_eq!(inst, UntarInstance::new(b"top".to_vec(), true, 0, 0));
    assert_eq!(next, 1);
    let (inst, next) = read_header(&header_block(file(b"top/a.txt", 1025)), 5).unwrap();
    assert_eq!(inst, UntarInstance::new(b"top/a.txt".to_vec(), false, 1025, 6));
    assert_eq!(next, 9);
    let (inst, next) = read_header(&header_block(file(b"top/empty.txt", 0)), 9).unwrap();
    assert_eq!(inst, UntarInstance::new(b"top/empty.txt".to_vec(), false, 0, 10));
    assert_eq!(next, 10);
}

#[test]
fn read_header_errors() {
    let good = header_block(file(b"a", 1));
    let mut bad = good.clone();
    bad[262] = 0;
    assert_eq!(read_header(&bad, 0).unwrap_err(), UntarError::UstarIndicator);
    let mut bad = good.clone();
    bad[264] = b'0';
    assert_eq!(read_header(&bad, 0).unwrap_err(), UntarError::UstarVersion);
    let mut bad = good.clone();
    bad[130] = b'9';
    assert_eq!(read_header(&bad, 0).unwrap_err(), UntarError::FileSize);
    assert_eq!(read_header(&vec![0u8; 512], 0).unwrap_err(), UntarError::UstarIndicator);
}

#[test]
fn stop_index_is_before_the_closing_blocks() {
    assert_eq!(stop_index(1024), 0);
    assert_eq!(stop_index(4096), 6);
    assert_eq!(stop_index(4097), 6);
}

#[test]
fn entar_then_untar_gives_back_entries() {
    let entries = vec![
        folder(b"test_files"),
        file(b"test_files/banana.txt", 6),
        file(b"test_files/empty.txt", 0),
        file(b"test_files/long.txt", 1300),
        folder(b"test_files/bar"),
        file("test_files/bar/中文示例.txt".as_bytes(), 2),
    ];
    let contents: Vec<Vec<u8>> = vec![
        vec![],
        b"banana".to_vec(),
        vec![],
        (0..1300).map(|i| (i % 256) as u8).collect(),
        vec![],
        b"hi".to_vec(),
    ];
    let archive = entar_archive(&entries, &contents);
    assert_eq!(archive.len(), 512 * (1 + 2 + 1 + 4 + 1 + 2 + 2));
    let infos = read_entries(&archive).unwrap();
    assert_eq!(infos.len(), 6);
    assert_eq!(infos[0], UntarInstance::new(b"test_files".to_vec(), true, 0, 0));
    assert_eq!(infos[1], UntarInstance::new(b"test_files/banana.txt".to_vec(), false, 6, 2));
    assert_eq!(infos[2], UntarInstance::new(b"test_files/empty.txt".to_vec(), false, 0, 4));
    assert_eq!(infos[3], UntarInstance::new(b"test_files/long.txt".to_vec(), false, 1300, 5));
    assert_eq!(infos[4], UntarInstance::new(b"test_files/bar".to_vec(), true, 0, 0));
    assert_eq!(
        infos[5],
        UntarInstance::new("test_files/bar/中文示例.txt".as_bytes().to_vec(), false, 2, 10)
    );
    for (info, content) in infos.iter().zip(contents.iter()) {
        if !info.is_folder {
            assert_eq!(&extract_content(&archive, info), content);
        }
    }
}

#[test]
fn untar_of_closing_blocks_only_is_refused() {
    assert_eq!(read_entries(&vec![0u8; 1024]).unwrap_err(), UntarError::UstarIndicator);
}

#[test]
fn untar_stops_at_end_of_data() {
    let entries = vec![folder(b"a")];
    let contents: Vec<Vec<u8>> = vec![vec![]];
    let mut archive = entar_archive(&entries, &contents);
    archive.extend_from_slice(&[0u8; 100]);
    let infos = read_entries(&archive).unwrap();
    assert_eq!(infos, vec![UntarInstance::new(b"a".to_vec(), true, 0, 0)]);
}

#[test]
fn plan_listing_keeps_files_and_folders() {
    let kinds = [EntryKind::File, EntryKind::Other, EntryKind::Folder, EntryKind::File, EntryKind::Folder];
    let plan = plan_listing(&kinds);
    assert_eq!(plan.archived, vec![0, 2, 3, 4]);
    assert_eq!(plan.walked, vec![2, 4]);
    let empty = plan_listing(&[]);
    assert!(empty.archived.is_empty() && empty.walked.is_empty());
}
