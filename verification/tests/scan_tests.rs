use std::cell::RefCell;
use std::sync::Arc;

use tarimage::base::{
    try_into_tarfile, FileInfo, ImageInfo, ScanError, SeekFrom, TarError, TarFile, TarImage,
};
use tarimage::tar::TarFileType;

fn put(block: &mut [u8], at: usize, bytes: &[u8]) {
    block[at..at + bytes.len()].copy_from_slice(bytes);
}

fn octal(val: u64, digits: usize) -> Vec<u8> {
    let mut s = format!("{:0width$o}", val, width = digits).into_bytes();
    s.push(0);
    s
}

fn fix_checksum(b: &mut [u8]) {
    for i in 148..156 {
        b[i] = b' ';
    }
    let sum: u32 = b.iter().map(|&x| x as u32).sum();
    let digits = format!("{:06o}", sum).into_bytes();
    b[148..154].copy_from_slice(&digits);
    b[154] = b' ';
    b[155] = 0;
}

fn make_header(name: &str, size: u64, typeflag: u8, linkname: &str) -> Vec<u8> {
    let mut b = vec![0u8; 512];
    put(&mut b, 0, name.as_bytes());
    put(&mut b, 100, &octal(0o644, 7));
    put(&mut b, 108, &octal(1000, 7));
    put(&mut b, 116, &octal(100, 7));
    put(&mut b, 124, &octal(size, 11));
    put(&mut b, 136, &octal(1_600_000_000, 11));
    b[156] = typeflag;
    put(&mut b, 157, linkname.as_bytes());
    put(&mut b, 257, b"ustar\0");
    put(&mut b, 263, b"00");
    fix_checksum(&mut b);
    b
}

fn data_blocks(data: &[u8]) -> Vec<u8> {
    let mut v = data.to_vec();
    while v.len() % 512 != 0 {
        v.push(0);
    }
    v
}

fn terminator() -> Vec<u8> {
    vec![0u8; 1024]
}

fn image(bytes: Vec<u8>) -> Arc<TarImage> {
    TarImage::open(String::from("archive.tar"), bytes)
}

fn collect_entries(img: &Arc<TarImage>) -> Vec<TarFile> {
    let found: RefCell<Vec<TarFile>> = RefCell::new(Vec::new());
    let r = TarImage::for_each_entry(img, |e: TarFile| -> Result<(), ()> {
        found.borrow_mut().push(e);
        Ok(())
    });
    assert!(r.is_ok());
    found.into_inner()
}

#[test]
fn test_open_records_path_and_size() {
    let img = image(vec![7u8; 2048]);
    assert_eq!(img.get_path(), "archive.tar");
    assert_eq!(img.get_size(), 2048);
}

#[test]
fn test_read_img_at_exact_range() {
    let img = image((0u8..100).collect());
    let v = img.read_img_at(10, 5).unwrap();
    assert_eq!(v, vec![10, 11, 12, 13, 14]);
    assert_eq!(img.read_img_at(96, 5), Err(TarError::ShortRead(96)));
    assert_eq!(img.read_img_at(200, 1), Err(TarError::ShortRead(200)));
}

#[test]
fn test_scan_single_file() {
    let mut a = make_header("hello.txt", 5, b'0', "");
    a.extend(data_blocks(b"hello"));
    a.extend(terminator());
    let img = image(a);
    let mut es = collect_entries(&img);
    assert_eq!(es.len(), 1);
    let e = &mut es[0];
    assert_eq!(e.get_name(), "hello.txt");
    assert_eq!(e.get_size(), 5);
    assert_eq!(e.get_type_flag(), '0');
    assert_eq!(e.get_offset(), 0);
    assert_eq!(e.get_file_type(), TarFileType::Undefined);
    let bytes = e.read(100).unwrap();
    assert_eq!(bytes, b"hello".to_vec());
    let eof = e.read(100).unwrap();
    assert!(eof.is_empty());
}

#[test]
fn test_read_past_size_is_idempotent_eof() {
    let mut a = make_header("f", 3, b'0', "");
    a.extend(data_blocks(b"abc"));
    a.extend(terminator());
    let img = image(a);
    let mut es = collect_entries(&img);
    let e = &mut es[0];
    assert_eq!(e.read(2).unwrap(), b"ab".to_vec());
    assert_eq!(e.read(2).unwrap(), b"c".to_vec());
    assert!(e.read(2).unwrap().is_empty());
    assert!(e.read(2).unwrap().is_empty());
    assert!(e.read(0).unwrap().is_empty());
    // over-seeking is legal and later reads still report clean EOF
    assert_eq!(e.seek(SeekFrom::Start(1000)).unwrap(), 1000);
    assert!(e.read(8).unwrap().is_empty());
}

#[test]
fn test_seek_modes() {
    let mut a = make_header("f", 5, b'0', "");
    a.extend(data_blocks(b"hello"));
    a.extend(terminator());
    let img = image(a);
    let mut es = collect_entries(&img);
    let e = &mut es[0];
    assert_eq!(e.seek(SeekFrom::Start(2)).unwrap(), 2);
    assert_eq!(e.read(100).unwrap(), b"llo".to_vec());
    assert_eq!(e.seek(SeekFrom::End(-1)).unwrap(), 4);
    assert_eq!(e.read(100).unwrap(), b"o".to_vec());
    assert_eq!(e.seek(SeekFrom::Start(1)).unwrap(), 1);
    assert_eq!(e.seek(SeekFrom::Current(2)).unwrap(), 3);
    assert_eq!(e.read(100).unwrap(), b"lo".to_vec());
    assert_eq!(e.seek(SeekFrom::Current(-100)), Err(TarError::InvalidSeek));
    assert_eq!(e.seek(SeekFrom::End(-6)), Err(TarError::InvalidSeek));
}

#[test]
fn test_terminator_stops_scan_despite_more_bytes() {
    let mut a = make_header("only", 0, b'0', "");
    a.extend(terminator());
    a.extend(vec![0xAAu8; 2048]); // bytes past the terminator are ignored
    let img = image(a);
    let es = collect_entries(&img);
    assert_eq!(es.len(), 1);
    assert_eq!(es[0].get_name(), "only");
}

#[test]
fn test_scan_ends_at_source_end_without_terminator() {
    let mut a = make_header("t", 4, b'0', "");
    a.extend(data_blocks(b"data"));
    let img = image(a);
    let es = collect_entries(&img);
    assert_eq!(es.len(), 1);
}

#[test]
fn test_empty_archive() {
    let img = image(Vec::new());
    assert!(collect_entries(&img).is_empty());
    let img2 = image(terminator());
    assert!(collect_entries(&img2).is_empty());
}

#[test]
fn test_offsets_increase_and_account_for_footprints() {
    let mut a = make_header("a.txt", 5, b'0', "");
    a.extend(data_blocks(b"aaaaa"));
    a.extend(make_header("b.txt", 600, b'0', ""));
    a.extend(data_blocks(&vec![b'b'; 600]));
    a.extend(terminator());
    let terminator_offset = (a.len() - 1024) as u64;
    let img = image(a);
    let es = collect_entries(&img);
    assert_eq!(es.len(), 2);
    assert_eq!(es[0].get_offset(), 0);
    assert_eq!(es[1].get_offset(), 1024); // 512 header + 512 padded data
    assert!(es[0].get_offset() < es[1].get_offset());
    // footprints: 512 + 512 and 512 + 1024, summing to the terminator offset
    assert_eq!(terminator_offset, 1024 + 1536);
}

#[test]
fn test_long_link_applies_to_following_symlink() {
    let mut a = make_header("marker", 0, b'K', "a/very/long/path/target");
    a.extend(make_header("shortcut", 0, b'1', "a/very/long/p"));
    a.extend(terminator());
    let img = image(a);
    let es = collect_entries(&img);
    assert_eq!(es.len(), 1); // the marker itself is never surfaced
    assert_eq!(es[0].get_name(), "shortcut");
    assert_eq!(es[0].get_file_type(), TarFileType::SymbolicLink);
    assert_eq!(es[0].get_link_target(), "a/very/long/path/target");
}

#[test]
fn test_long_link_persists_until_overwritten() {
    let mut a = make_header("marker", 0, b'K', "first/target");
    a.extend(make_header("s1", 0, b'1', ""));
    a.extend(make_header("s2", 0, b'1', ""));
    a.extend(make_header("marker2", 0, b'K', "second/target"));
    a.extend(make_header("s3", 0, b'1', ""));
    a.extend(terminator());
    let img = image(a);
    let es = collect_entries(&img);
    assert_eq!(es.len(), 3);
    assert_eq!(es[0].get_link_target(), "first/target");
    assert_eq!(es[1].get_link_target(), "first/target");
    assert_eq!(es[2].get_link_target(), "second/target");
}

#[test]
fn test_symlink_without_pending_has_empty_target() {
    let mut a = make_header("lonely", 0, b'1', "own/field");
    a.extend(terminator());
    let img = image(a);
    let es = collect_entries(&img);
    assert_eq!(es.len(), 1);
    assert_eq!(es[0].get_file_type(), TarFileType::SymbolicLink);
    assert_eq!(es[0].get_link_target(), "");
    assert_eq!(es[0].get_header().get_link_name(), "own/field");
}

#[test]
fn test_checksum_mismatch_stops_scan_at_offset() {
    let mut a = make_header("good", 5, b'0', "");
    a.extend(data_blocks(b"hello"));
    let mut bad = make_header("bad", 0, b'0', "");
    bad[148] ^= 0x01; // one corrupted bit in the checksum field
    a.extend(bad);
    a.extend(terminator());
    let img = image(a);
    let seen: RefCell<Vec<String>> = RefCell::new(Vec::new());
    let r = TarImage::for_each_entry(&img, |e: TarFile| -> Result<(), ()> {
        seen.borrow_mut().push(e.get_name());
        Ok(())
    });
    assert_eq!(r, Err(ScanError::Archive(TarError::ChecksumMismatch(1024))));
    assert_eq!(seen.into_inner(), vec![String::from("good")]);
}

#[test]
fn test_short_header_read_is_an_error() {
    let mut a = make_header("t", 0, b'0', "");
    a.extend(vec![0x55u8; 100]); // a partial block where a header is due
    let img = image(a);
    let r = TarImage::for_each_entry(&img, |_e: TarFile| -> Result<(), ()> { Ok(()) });
    assert_eq!(r, Err(ScanError::Archive(TarError::ShortRead(512))));
}

#[test]
fn test_visitor_abort_propagates_and_stops() {
    let mut a = make_header("one", 0, b'0', "");
    a.extend(make_header("two", 0, b'0', ""));
    a.extend(terminator());
    let img = image(a);
    let count = RefCell::new(0u32);
    let r = TarImage::for_each_entry(&img, |_e: TarFile| -> Result<(), String> {
        *count.borrow_mut() += 1;
        Err(String::from("stop here"))
    });
    assert_eq!(r, Err(ScanError::Aborted(String::from("stop here"))));
    assert_eq!(count.into_inner(), 1);
}

#[test]
fn test_single_zero_block_is_skipped() {
    let mut a = vec![0u8; 512]; // one sentinel block, then a real header
    a.extend(make_header("after", 4, b'0', ""));
    a.extend(data_blocks(b"data"));
    a.extend(terminator());
    let img = image(a);
    let mut es = collect_entries(&img);
    assert_eq!(es.len(), 1);
    let e = &mut es[0];
    assert_eq!(e.get_name(), "after");
    assert_eq!(e.get_offset(), 0); // the read began at the sentinel
    assert_eq!(e.read(100).unwrap(), b"data".to_vec());
}

#[test]
fn test_oversized_entry_clamps_to_source_end() {
    let mut a = make_header("huge", 0o77777777777, b'0', "");
    a.extend(data_blocks(b"partial"));
    let img = image(a);
    let es = collect_entries(&img);
    assert_eq!(es.len(), 1);
    assert_eq!(es[0].get_size(), 0o77777777777);
}

#[test]
fn test_truncated_data_read_is_short() {
    let mut a = make_header("cut", 600, b'0', "");
    a.extend(vec![b'x'; 100]); // claims 600 bytes, holds 100
    let img = image(a);
    let mut es = collect_entries(&img);
    let e = &mut es[0];
    assert_eq!(e.read(100).unwrap(), vec![b'x'; 100]);
    assert_eq!(e.read(100), Err(TarError::ShortRead(612)));
}

#[test]
fn test_get_file_at_direct_lookup() {
    let mut a = make_header("first", 5, b'0', "");
    a.extend(data_blocks(b"hello"));
    a.extend(make_header("second", 0, b'5', ""));
    a.extend(terminator());
    let img = image(a);
    let (f, n) = TarImage::get_file_at(&img, 1024).unwrap();
    assert_eq!(n, 512);
    assert_eq!(f.get_name(), "second");
    assert_eq!(f.get_offset(), 1024);
    assert_eq!(f.get_file_type(), TarFileType::Directory);
    match TarImage::get_file_at(&img, 1536) {
        Err(e) => assert_eq!(e, TarError::NoEntry(1536)),
        Ok(_) => panic!("expected the terminator"),
    }
    match TarImage::get_file_at(&img, 9999) {
        Err(e) => assert_eq!(e, TarError::ShortRead(9999)),
        Ok(_) => panic!("expected a short read"),
    }
}

#[test]
fn test_tar_hdr_read_internal_outcomes() {
    let mut a = make_header("x", 0, b'0', "");
    a.extend(terminator());
    let img = image(a);
    let (h, n) = tarimage::base::tar_hdr_read_internal(&img, 0).unwrap();
    assert_eq!(n, 512);
    assert_eq!(h.get_name(), "x");
    let (_z, n2) = tarimage::base::tar_hdr_read_internal(&img, 512).unwrap();
    assert_eq!(n2, 0); // the terminator reports zero consumed bytes
}

#[test]
fn test_downcast_mismatch() {
    let mut a = make_header("dir", 0, b'5', "");
    a.extend(terminator());
    let img = image(a);
    let es = collect_entries(&img);
    let (f, _) = TarImage::get_file_at(&img, 0).unwrap();
    assert_eq!(es[0].get_file_type(), TarFileType::Directory);
    match try_into_tarfile(f, TarFileType::SymbolicLink) {
        Err(TarError::DowncastMismatch) => {}
        _ => panic!("expected a downcast mismatch"),
    }
    let (f2, _) = TarImage::get_file_at(&img, 0).unwrap();
    let back = try_into_tarfile(f2, TarFileType::Directory).unwrap();
    assert_eq!(back.get_name(), "dir");
}

#[test]
fn test_entry_full_path() {
    let mut h = make_header("lib.rs", 0, b'0', "");
    put(&mut h, 345, b"src/deep");
    fix_checksum(&mut h);
    let mut a = h;
    a.extend(terminator());
    let img = image(a);
    let es = collect_entries(&img);
    assert_eq!(es[0].get_full_path(), "src/deep/lib.rs");
    assert_eq!(es[0].get_header().get_uname(), "");
}

#[test]
fn test_tarfile_new_defaults() {
    let img = image(vec![0u8; 1024]);
    let h = tarimage::tar::read_tar_header(&vec![0u8; 512]).unwrap();
    let f = TarFile::new(img, h);
    assert_eq!(f.get_offset(), 0);
    assert_eq!(f.get_file_type(), TarFileType::Undefined);
    assert_eq!(f.get_link_target(), "");
}
