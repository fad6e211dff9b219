use rustar::{extract_file, oct2bin, parse_header, tar_lookup, TarIter};

// One header block for `name` (raw bytes) that declares `size` bytes.
fn make_header(name: &[u8], size: usize) -> Vec<u8> {
    let mut header = vec![0u8; 512];
    header[..name.len()].copy_from_slice(name);

    let size_str = format!("{:o}", size);
    let size_bytes = size_str.as_bytes();
    header[0x7c..0x7c + size_bytes.len()].copy_from_slice(size_bytes);

    header[257..257 + 5].copy_from_slice(b"ustar");

    for i in 148..156 {
        header[i] = b' ';
    }
    let chksum: u32 = header.iter().map(|&b| b as u32).sum();
    let chksum_str = format!("{:06o}\0 ", chksum);
    header[148..148 + chksum_str.len()].copy_from_slice(chksum_str.as_bytes());
    header
}

// A header and its content, padded to whole blocks.
fn make_entry(name: &[u8], contents: &[u8]) -> Vec<u8> {
    let mut entry = make_header(name, contents.len());
    entry.extend_from_slice(contents);
    let padding = (512 - (contents.len() % 512)) % 512;
    entry.extend(core::iter::repeat(0).take(padding));
    entry
}

// An archive with one file, ended by two zero blocks.
fn make_tar(filename: &str, contents: &[u8]) -> Vec<u8> {
    let mut archive = make_entry(filename.as_bytes(), contents);
    archive.extend([0u8; 1024]);
    archive
}

// An archive as the `tar` tool writes it: every field of the header filled in,
// the size field with its leading zeros.
fn sample_tar() -> Vec<u8> {
    let contents = b"Hello World!\n";
    let mut header = vec![0u8; 512];
    header[..9].copy_from_slice(b"hello.txt");
    header[100..108].copy_from_slice(b"0000644\0");
    header[108..116].copy_from_slice(b"0001750\0");
    header[116..124].copy_from_slice(b"0001750\0");
    header[124..136].copy_from_slice(b"00000000015\0");
    header[136..148].copy_from_slice(b"14371573642\0");
    header[148..156].copy_from_slice(b"        ");
    header[156] = b'0';
    header[257..263].copy_from_slice(b"ustar\0");
    header[263..265].copy_from_slice(b"00");
    header[265..269].copy_from_slice(b"user");
    header[297..301].copy_from_slice(b"user");
    header[329..337].copy_from_slice(b"0000000\0");
    header[337..345].copy_from_slice(b"0000000\0");
    let chksum: u32 = header.iter().map(|&b| b as u32).sum();
    let chksum_str = format!("{:06o}\0 ", chksum);
    header[148..156].copy_from_slice(chksum_str.as_bytes());

    let mut archive = header;
    archive.extend_from_slice(contents);
    archive.extend(core::iter::repeat(0).take(512 - contents.len()));
    archive.extend(core::iter::repeat(0).take(10240 - 1024));
    archive
}

fn names_of(archive: &[u8]) -> Vec<String> {
    let mut names = Vec::new();
    let mut it = TarIter::new(archive);
    while let Some(hdr) = it.next() {
        names.push(hdr.name.to_string());
    }
    names
}

#[test]
fn test_oct2bin() {
    assert_eq!(oct2bin(b"10"), 8);
    assert_eq!(oct2bin(b"7"), 7);
    assert_eq!(oct2bin(b"00010"), 8); // leading zeros
    assert_eq!(oct2bin(b""), 0); // empty string
}

#[test]
fn test_extract_file_from_sample() {
    let sample = sample_tar();
    let archive: &[u8] = &sample;

    let file = extract_file(archive, "hello.txt").expect("file not found");

    assert_eq!(file, b"Hello World!\n");
}

#[test]
fn test_extract_file_from_generated() {
    let tar = make_tar("liz.txt", b"hello owo\n");

    let file = extract_file(&tar, "liz.txt").expect("file not found in generated tar");

    assert_eq!(file, b"hello owo\n");
}

#[test]
fn test_extract_missing_file() {
    let tar = make_tar("only.txt", b"data");
    assert!(extract_file(&tar, "missing.txt\0").is_none());
}

#[test]
fn test_extract_empty_file() {
    let tar = make_tar("in the grim darkness of the future.txt", b"");
    let file = extract_file(&tar, "in the grim darkness of the future.txt")
        .expect("empty file not found");
    assert!(file.is_empty());
}

#[test]
fn test_iter_multiple_files() {
    // Concatenate two tars manually to simulate multi-file archive
    let mut tar1 = make_tar("puppyboy.txt", b"OwO\n");
    let mut tar2 = make_tar("puppygirl.txt", b"^W^\n");
    // remove the ending zero blocks from tar1
    tar1.truncate(tar1.len() - 1024);
    tar1.append(&mut tar2);

    let mut files: Vec<String> = Vec::new();
    let mut it = TarIter::new(&tar1);
    while let Some(hdr) = it.next() {
        let raw: &[u8] = hdr.name.as_bytes(); // ensure it's &[u8] via as_bytes
        let trimmed = raw
            .split(|&b| b == 0) // split on NUL
            .next()
            .unwrap();
        files.push(String::from_utf8_lossy(trimmed).to_string());
    }

    assert!(files.contains(&"puppyboy.txt".to_string()));
    assert!(files.contains(&"puppygirl.txt".to_string()));
}

#[test]
fn oct2bin_passes_over_padding() {
    assert_eq!(oct2bin(b"\0\0" as &[u8]), 0);
    assert_eq!(oct2bin(b"   "), 0);
    assert_eq!(oct2bin(b"1\x000"), 8);
    assert_eq!(oct2bin(b" 1 0 "), 8);
    assert_eq!(oct2bin(b"17\0"), 15);
    assert_eq!(oct2bin(b"00000000015\0"), 13);
    assert_eq!(oct2bin(b"x7y7z"), 63);
}

#[test]
fn oct2bin_passes_over_other_digits() {
    assert_eq!(oct2bin(b"8"), 0);
    assert_eq!(oct2bin(b"19"), 1);
    assert_eq!(oct2bin(b"181"), 9);
}

#[test]
fn oct2bin_exact_values() {
    assert_eq!(oct2bin(b"777"), 511);
    assert_eq!(oct2bin(b"1000"), 512);
    assert_eq!(oct2bin(b"77777777777"), (1usize << 33) - 1);
}

#[test]
fn oct2bin_stops_at_the_largest_value() {
    assert_eq!(oct2bin(&[b'7'; 40]), usize::MAX);
    assert_eq!(oct2bin(&[b'1'; 64]), usize::MAX);
}

#[test]
fn parse_header_reads_the_fields() {
    let tar = make_tar("liz.txt", b"hello owo\n");
    let hdr = parse_header(&tar, 0).expect("no header");
    assert_eq!(hdr.name, "liz.txt");
    assert_eq!(hdr.size, 10);
    assert_eq!(hdr.file_start, 512);
    assert_eq!(hdr.file_end, 522);
}

#[test]
fn parse_header_needs_a_whole_block() {
    let tar = make_tar("liz.txt", b"hello owo\n");
    assert!(parse_header(&tar[..511], 0).is_none());
    assert!(parse_header(&tar[..512], 0).is_some());
    assert!(parse_header(&tar[..512], 1).is_none());
    assert!(parse_header(&tar, tar.len()).is_none());
    assert!(parse_header(&tar, tar.len() + 1).is_none());
    assert!(parse_header(&tar, usize::MAX).is_none());
    assert!(parse_header(&[], 0).is_none());
}

#[test]
fn parse_header_needs_the_magic() {
    let mut tar = make_tar("liz.txt", b"hello owo\n");
    assert!(parse_header(&tar, 512).is_none());
    assert!(parse_header(&tar, 1024).is_none());
    tar[261] = b'R';
    assert!(parse_header(&tar, 0).is_none());
}

#[test]
fn parse_header_needs_a_utf8_name() {
    let entry = make_entry(&[0xff, 0xfe, b'a'], b"x");
    assert!(parse_header(&entry, 0).is_none());
    let cut = make_entry(&[b'a', 0xc3], b"x");
    assert!(parse_header(&cut, 0).is_none());
}

#[test]
fn parse_header_decodes_a_utf8_name() {
    let entry = make_entry("h\u{e9}llo \u{4e16}\u{754c}.txt".as_bytes(), b"x");
    let hdr = parse_header(&entry, 0).expect("no header");
    assert_eq!(hdr.name, "h\u{e9}llo \u{4e16}\u{754c}.txt");
    assert_eq!(hdr.name.chars().count(), 12);
}

#[test]
fn parse_header_cuts_the_name_at_the_first_nul() {
    let entry = make_entry(b"ab\0cd", b"");
    let hdr = parse_header(&entry, 0).expect("no header");
    assert_eq!(hdr.name, "ab");
    // bytes behind the NUL are not looked at
    let entry = make_entry(b"ab\0\xff\xff", b"");
    let hdr = parse_header(&entry, 0).expect("no header");
    assert_eq!(hdr.name, "ab");
    let entry = make_entry(b"", b"");
    let hdr = parse_header(&entry, 0).expect("no header");
    assert_eq!(hdr.name, "");
}

#[test]
fn parse_header_takes_a_name_that_fills_the_field() {
    let name = [b'n'; 100];
    let entry = make_entry(&name, b"abc");
    let hdr = parse_header(&entry, 0).expect("no header");
    assert_eq!(hdr.name.len(), 100);
    assert_eq!(hdr.name.as_bytes(), &name[..]);
    assert_eq!(hdr.size, 3);
}

#[test]
fn parse_header_does_not_check_the_content_range() {
    let header = make_header(b"big.bin", 5000);
    let hdr = parse_header(&header, 0).expect("no header");
    assert_eq!(hdr.size, 5000);
    assert_eq!(hdr.file_start, 512);
    assert_eq!(hdr.file_end, 5512);
}

#[test]
fn parse_header_at_a_later_offset() {
    let mut tar = make_entry(b"a.txt", &[7u8; 600]);
    tar.extend(make_entry(b"b.txt", b"bb"));
    let hdr = parse_header(&tar, 1536).expect("no header");
    assert_eq!(hdr.name, "b.txt");
    assert_eq!(hdr.size, 2);
    assert_eq!(hdr.file_start, 2048);
    assert_eq!(hdr.file_end, 2050);
}

#[test]
fn iter_yields_entries_in_archive_order() {
    let mut tar = make_entry(b"puppyboy.txt", b"OwO\n");
    tar.extend(make_tar("puppygirl.txt", b"^W^\n"));
    assert_eq!(names_of(&tar), vec!["puppyboy.txt".to_string(), "puppygirl.txt".to_string()]);
}

#[test]
fn iter_advances_over_padded_content() {
    let mut tar = make_entry(b"one", &[1u8; 512]);
    tar.extend(make_entry(b"two", &[2u8; 513]));
    tar.extend(make_entry(b"three", b""));
    tar.extend(make_entry(b"four", &[4u8; 1]));
    let mut it = TarIter::new(&tar);
    let a = it.next().expect("first");
    assert_eq!((a.name, a.size, a.file_start, a.file_end), ("one", 512, 512, 1024));
    let b = it.next().expect("second");
    assert_eq!((b.name, b.size, b.file_start, b.file_end), ("two", 513, 1536, 2049));
    let c = it.next().expect("third");
    assert_eq!((c.name, c.size, c.file_start, c.file_end), ("three", 0, 3072, 3072));
    let d = it.next().expect("fourth");
    assert_eq!((d.name, d.size, d.file_start, d.file_end), ("four", 1, 3584, 3585));
    assert!(it.next().is_none());
    assert!(it.next().is_none());
}

#[test]
fn iter_over_nothing() {
    assert!(TarIter::new(&[]).next().is_none());
    assert!(TarIter::new(&[0u8; 1024]).next().is_none());
    assert!(TarIter::new(&[0u8; 100]).next().is_none());
}

#[test]
fn iter_stops_at_a_zero_block() {
    let mut tar = make_entry(b"a.txt", b"aaa");
    tar.extend([0u8; 512]);
    tar.extend(make_entry(b"hidden.txt", b"hhh"));
    assert_eq!(names_of(&tar), vec!["a.txt".to_string()]);
}

#[test]
fn iter_stops_at_a_block_without_magic() {
    let mut tar = make_entry(b"a.txt", b"aaa");
    tar.extend(make_entry(b"b.txt", b"bbb"));
    let plain = names_of(&tar);
    let mut garbage = make_header(b"c.txt", 0);
    garbage[257] = b'U';
    tar.extend(garbage);
    assert_eq!(names_of(&tar), plain);
    assert_eq!(plain, vec!["a.txt".to_string(), "b.txt".to_string()]);
}

#[test]
fn iter_stops_at_a_short_tail() {
    let mut tar = make_entry(b"a.txt", b"aaa");
    let tail = make_header(b"b.txt", 0);
    tar.extend_from_slice(&tail[..511]);
    assert_eq!(names_of(&tar), vec!["a.txt".to_string()]);
}

#[test]
fn iter_stops_at_a_name_that_is_not_text() {
    let mut tar = make_entry(b"a.txt", b"aaa");
    tar.extend(make_entry(&[0x80], b"bbb"));
    tar.extend(make_entry(b"c.txt", b"ccc"));
    assert_eq!(names_of(&tar), vec!["a.txt".to_string()]);
}

#[test]
fn iter_yields_an_entry_whose_content_is_cut_off() {
    let tar = make_header(b"cut.bin", 4096);
    let mut it = TarIter::new(&tar);
    let hdr = it.next().expect("no header");
    assert_eq!(hdr.name, "cut.bin");
    assert_eq!(hdr.file_end, 512 + 4096);
    assert!(it.next().is_none());
}

#[test]
fn lookup_borrows_from_the_archive() {
    let tar = make_tar("liz.txt", b"hello owo\n");
    let data = tar_lookup(&tar, "liz.txt").expect("not found");
    assert_eq!(data, b"hello owo\n");
    assert_eq!(data.as_ptr(), tar[512..].as_ptr());
}

#[test]
fn lookup_round_trip() {
    let block: Vec<u8> = (0..2000u32).map(|i| (i % 251) as u8).collect();
    for (name, len) in [("a", 0usize), ("dir/b.bin", 1), ("c", 511), ("d", 512), ("e", 513), ("f", 2000)] {
        let tar = make_tar(name, &block[..len]);
        assert_eq!(extract_file(&tar, name).expect("not found"), &block[..len]);
        assert_eq!(tar_lookup(&tar, name).expect("not found"), &block[..len]);
    }
}

#[test]
fn lookup_of_an_absent_name() {
    let mut tar = make_entry(b"a.txt", b"aaa");
    tar.extend(make_tar("b.txt", b"bbb"));
    assert!(tar_lookup(&tar, "c.txt").is_none());
    assert!(tar_lookup(&tar, "").is_none());
    assert!(tar_lookup(&tar, "a.tx").is_none());
    assert!(tar_lookup(&tar, "a.txt\0").is_none());
    assert!(tar_lookup(&tar, "a.txt ").is_none());
    assert!(tar_lookup(&tar, "./a.txt").is_none());
    assert!(tar_lookup(&tar, "A.TXT").is_none());
    assert!(extract_file(&tar, "c.txt").is_none());
    assert!(extract_file(&[], "a.txt").is_none());
}

#[test]
fn lookup_finds_a_later_entry() {
    let mut tar = make_entry(b"a.txt", &[b'a'; 700]);
    tar.extend(make_tar("b.txt", b"bbb"));
    assert_eq!(tar_lookup(&tar, "b.txt").expect("not found"), b"bbb");
    assert_eq!(extract_file(&tar, "a.txt").expect("not found"), vec![b'a'; 700]);
}

#[test]
fn lookup_takes_the_first_of_two_entries_of_one_name() {
    let mut tar = make_entry(b"same.txt", b"first");
    tar.extend(make_tar("same.txt", b"second"));
    assert_eq!(tar_lookup(&tar, "same.txt").expect("not found"), b"first");
    assert_eq!(extract_file(&tar, "same.txt").expect("not found"), b"first");
}

#[test]
fn lookup_rejects_content_past_the_end() {
    let mut tar = make_header(b"big.bin", 1000);
    tar.extend([9u8; 999]);
    assert!(tar_lookup(&tar, "big.bin").is_none());
    assert!(extract_file(&tar, "big.bin").is_none());
    tar.push(9);
    assert_eq!(tar_lookup(&tar, "big.bin").expect("not found"), &[9u8; 1000][..]);
}

#[test]
fn lookup_rejects_a_size_no_buffer_can_hold() {
    let mut tar = make_header(b"huge.bin", 0);
    tar[0x7c..0x7c + 11].copy_from_slice(b"77777777777");
    tar.extend([0u8; 1024]);
    assert!(tar_lookup(&tar, "huge.bin").is_none());
    assert!(extract_file(&tar, "huge.bin").is_none());
}

#[test]
fn lookup_does_not_see_past_a_bad_header() {
    let mut tar = make_entry(b"a.txt", b"aaa");
    tar.extend([0u8; 512]);
    tar.extend(make_tar("b.txt", b"bbb"));
    assert_eq!(tar_lookup(&tar, "a.txt").expect("not found"), b"aaa");
    assert!(tar_lookup(&tar, "b.txt").is_none());
}

#[test]
fn lookup_by_a_utf8_name() {
    let name = "caf\u{e9}/\u{1f980}.txt";
    let tar = make_tar(name, b"crab");
    assert_eq!(extract_file(&tar, name).expect("not found"), b"crab");
    assert!(extract_file(&tar, "cafe/\u{1f980}.txt").is_none());
}

#[test]
fn garbage_tail_changes_nothing() {
    let mut tar = make_entry(b"a.txt", b"aaa");
    tar.extend(make_entry(b"b.txt", b"bbb"));
    let plain = names_of(&tar);
    let mut zeros = tar.clone();
    zeros.extend([0u8; 512]);
    assert_eq!(names_of(&zeros), plain);
    let mut noise = tar.clone();
    noise.extend((0..512u32).map(|i| (i * 7 % 256) as u8));
    assert_eq!(names_of(&noise), plain);
    assert_eq!(tar_lookup(&noise, "b.txt").expect("not found"), b"bbb");
}
