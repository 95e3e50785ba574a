use ps2_backup_tool::checksum::{ChecksumAlgo, ChunkHasher};
use ps2_backup_tool::iso::{
    detect_media_type, extract_game_id, extract_startup, extract_volume_label, search_len,
    validate_iso, IsoError, IsoImage, IsoProbe,
};
use ps2_backup_tool::opl_crc::{crc32, crc32_hex};
use ps2_backup_tool::ulcfg::{
    add_entry, can_join, encode_entry, extract_title, is_real_format, parse_ulcfg, remove_entry,
    shorten_title, ulcfg_path, write_ulcfg, PathStyle, UlCfgError, UlEntry, ENTRY_SIZE, IMAGE_OFFSET, MAGIC, MAGIC_OFFSET,
    MEDIA_CD, MEDIA_DVD, MEDIA_OFFSET, PARTS_OFFSET,
};

fn entry(title: &str, game_id: &str, parts: u16, media: u8) -> UlEntry {
    UlEntry {
        title: title.into(),
        game_id: game_id.into(),
        parts,
        media,
        mount_point: String::new(),
    }
}

// ---------------------------------------------------------------- the name checksum

#[test]
fn deterministic() {
    assert_eq!(crc32("God of War"), crc32("God of War"));
    assert_ne!(crc32("God of War"), crc32("Shadow of the Colossus"));
}

#[test]
fn hex_is_8_uppercase_digits() {
    let h = crc32_hex("Some Game");
    assert_eq!(h.len(), 8);
    assert!(h.chars().all(|c| c.is_ascii_hexdigit() && !c.is_ascii_lowercase()));
}

#[test]
fn empty_name_matches_reference() {
    assert_eq!(crc32(""), 0);
}

#[test]
fn checksum_of_known_names() {
    assert_eq!(crc32_hex("God of War"), "574F9590");
    assert_eq!(crc32_hex("Shadow of the Colossus"), "661E9C33");
    assert_eq!(crc32_hex(""), "00000000");
}

#[test]
fn checksum_counts_32_bytes_up_to_a_null() {
    let long = "A".repeat(32);
    assert_eq!(crc32(&long), 0x184D9DA5);
    assert_eq!(crc32(&format!("{}tail", long)), 0x184D9DA5);
    assert_ne!(crc32(&"A".repeat(31)), 0x184D9DA5);
    assert_eq!(crc32("Game A\0B"), crc32("Game A"));
}

// ---------------------------------------------------------------- the game list

#[test]
fn test_extract_title() {
    assert_eq!(extract_title("SLUS_200.00 - God of War.iso"), "God of War");
    assert_eq!(extract_title("my_game.iso"), "my_game");
    assert_eq!(extract_title("SCUS_971.24.bin"), "SCUS_971.24");
}

#[test]
fn title_takes_one_suffix_and_the_first_separator() {
    assert_eq!(extract_title("a - b - c.iso"), "b - c");
    assert_eq!(extract_title("game.bin.iso"), "game.bin");
    assert_eq!(extract_title(""), "");
    assert_eq!(extract_title("x - .iso"), "");
}

#[test]
fn test_record_is_64_bytes_with_magic() {
    let entry = UlEntry {
        title: "God of War".into(),
        game_id: "SLUS_217.46".into(),
        parts: 3,
        media: MEDIA_DVD,
        mount_point: String::new(),
    };
    let rec = encode_entry(&entry);
    assert_eq!(rec.len(), 64);
    assert_eq!(rec[PARTS_OFFSET], 3);
    assert_eq!(rec[MEDIA_OFFSET], MEDIA_DVD);
    assert_eq!(rec[MAGIC_OFFSET], MAGIC);
    assert_eq!(&rec[IMAGE_OFFSET..IMAGE_OFFSET + 14], b"ul.SLUS_217.46");
}

#[test]
fn record_cuts_what_does_not_fit() {
    let rec = encode_entry(&entry(&"T".repeat(40), "LONG_GAME_ID_00", 300, 0x99));
    assert_eq!(&rec[..32], "T".repeat(32).as_bytes());
    assert_eq!(&rec[IMAGE_OFFSET..IMAGE_OFFSET + 15], b"ul.LONG_GAME_ID");
    assert_eq!(rec[PARTS_OFFSET], 255);
    assert_eq!(rec[MEDIA_OFFSET], MEDIA_DVD);
    assert!(rec[0x36..].iter().all(|b| *b == 0));
}

#[test]
fn record_fields_are_filled_whole() {
    let title = "ABCDEFGHIJKLMNOPQRSTUVWXYZ012345";
    let e = entry(title, "SLUS_2174.46", 7, MEDIA_CD);
    let rec = encode_entry(&e);
    assert_eq!(&rec[..32], title.as_bytes());
    assert_eq!(&rec[0x20..0x2F], b"ul.SLUS_2174.46");
    let list = parse_ulcfg(&rec);
    assert_eq!(list.len(), 1);
    assert_eq!((list[0].title.as_str(), list[0].game_id.as_str()), (title, "SLUS_2174.46"));
    assert_eq!((list[0].parts, list[0].media), (7, MEDIA_CD));
}

#[test]
fn titles_are_cut_to_what_reads_back() {
    assert_eq!(shorten_title(&"x".repeat(33)), "x".repeat(32));
    assert_eq!(shorten_title(&"x".repeat(32)), "x".repeat(32));
    assert_eq!(shorten_title(&"é".repeat(20)), "é".repeat(16));
    assert_eq!(shorten_title(&"é".repeat(40)), "é".repeat(16));
    assert_eq!(shorten_title(&format!("x{}", "é".repeat(40))), format!("x{}", "é".repeat(15)));
    assert_eq!(shorten_title(&"𝄞".repeat(9)), "𝄞".repeat(8));
    assert_eq!(shorten_title(&"€".repeat(11)), "€".repeat(10));
    assert_eq!(shorten_title("Game  "), "Game");
    assert_eq!(shorten_title("Game \0 rest"), "Game");
    assert_eq!(shorten_title(&format!("{} tail", "x".repeat(31))), "x".repeat(31));
    assert_eq!(shorten_title("  "), "");
    for title in ["Ōkami", " lead", "x\ty", "A\0B", "ends with tab\t"] {
        let short = shorten_title(title);
        let list = parse_ulcfg(&encode_entry(&entry(&short, "I", 1, MEDIA_DVD)));
        assert_eq!(list[0].title, short);
    }
}

#[test]
fn reading_gives_plain_texts() {
    let mut rec = [0u8; ENTRY_SIZE];
    rec[..12].copy_from_slice(b"Game  \0junk ");
    rec[IMAGE_OFFSET..IMAGE_OFFSET + 9].copy_from_slice(b"ul.ID  \0x");
    let list = parse_ulcfg(&rec);
    assert_eq!((list[0].title.as_str(), list[0].game_id.as_str()), ("Game", "ID"));
    let list = parse_ulcfg(&[0xC3u8; ENTRY_SIZE]);
    assert_eq!(list[0].title, "\u{FFFD}".repeat(32));
    assert_eq!(list[0].game_id, "\u{FFFD}".repeat(15));
    let list = parse_ulcfg(&[b' '; ENTRY_SIZE]);
    assert!(list.is_empty());
}

#[test]
fn test_write_parse_roundtrip() {
    let entries = vec![
        UlEntry {
            title: "God of War".into(),
            game_id: "SLUS_217.46".into(),
            parts: 2,
            media: MEDIA_DVD,
            mount_point: String::new(),
        },
        UlEntry {
            title: "Shadow of the Colossus".into(),
            game_id: "SCUS_971.24".into(),
            parts: 1,
            media: MEDIA_CD,
            mount_point: String::new(),
        },
    ];

    let data = write_ulcfg(&entries);

    assert_eq!(data.len() as u64 % ENTRY_SIZE as u64, 0);
    assert!(is_real_format(&data));

    let parsed = parse_ulcfg(&data);
    assert_eq!(parsed.len(), 2);
    assert_eq!(parsed[0].title, "God of War");
    assert_eq!(parsed[0].game_id, "SLUS_217.46");
    assert_eq!(parsed[0].parts, 2);
    assert_eq!(parsed[0].media, MEDIA_DVD);
    assert_eq!(parsed[1].title, "Shadow of the Colossus");
    assert_eq!(parsed[1].game_id, "SCUS_971.24");
    assert_eq!(parsed[1].media, MEDIA_CD);
}

#[test]
fn test_add_and_remove() {
    let entry = UlEntry {
        title: "Test Game".into(),
        game_id: "TEST_000.00".into(),
        parts: 1,
        media: MEDIA_DVD,
        mount_point: String::new(),
    };

    let data = add_entry(&[], &entry);
    assert_eq!(parse_ulcfg(&data).len(), 1);

    let data = remove_entry(&data, "TEST_000.00").unwrap();
    assert_eq!(parse_ulcfg(&data).len(), 0);
}

#[test]
fn adding_a_listed_game_updates_it() {
    let data = add_entry(&[], &entry("Game A", "AAAA_000.01", 1, MEDIA_CD));
    let data = add_entry(&data, &entry("Game B", "BBBB_000.02", 2, MEDIA_DVD));
    let data = add_entry(&data, &entry("New Name", "AAAA_000.01", 3, MEDIA_DVD));
    let parsed = parse_ulcfg(&data);
    assert_eq!(parsed.len(), 2);
    assert_eq!(parsed[0].title, "New Name");
    assert_eq!(parsed[0].parts, 3);
    assert_eq!(parsed[0].media, MEDIA_DVD);
    assert_eq!(parsed[1].title, "Game B");
    assert!(remove_entry(&data, "CCCC_000.03").is_none());
}

#[test]
fn records_without_a_name_and_partial_records_are_no_games() {
    let mut data = write_ulcfg(&[entry("", "AAAA_000.01", 1, MEDIA_CD), entry("B", "B", 1, MEDIA_CD)]);
    data.extend_from_slice(&[0x41u8; 63]);
    let parsed = parse_ulcfg(&data);
    assert_eq!(parsed.len(), 1);
    assert_eq!(parsed[0].title, "B");
    assert!(!is_real_format(&data));
    assert!(!is_real_format(&[]));
}

#[test]
fn fields_are_decoded_and_trimmed() {
    let mut rec = encode_entry(&entry("Spaces", "AAAA_000.01", 1, MEDIA_CD));
    rec[6] = b' ';
    rec[7] = b' ';
    assert_eq!(parse_ulcfg(&rec)[0].title, "Spaces");
    rec[0] = 0xFF;
    assert_eq!(parse_ulcfg(&rec)[0].title, "\u{FFFD}paces");
    rec[IMAGE_OFFSET] = b'x';
    assert_eq!(parse_ulcfg(&rec)[0].game_id, "xl.AAAA_000.01");
}

#[test]
fn a_default_entry_is_one_part_of_a_dvd() {
    let e = UlEntry::default();
    assert_eq!((e.parts, e.media), (1, MEDIA_DVD));
    assert_eq!(e.title, "");
}

#[test]
fn the_list_lies_in_the_root() {
    assert_eq!(ulcfg_path("/media/usb", PathStyle::Unix), "/media/usb/ul.cfg");
    assert_eq!(ulcfg_path("/media/usb/", PathStyle::Unix), "/media/usb/ul.cfg");
    assert_eq!(ulcfg_path("", PathStyle::Unix), "ul.cfg");
    assert_eq!(ulcfg_path("E:\\", PathStyle::Windows), "E:\\ul.cfg");
    assert_eq!(ulcfg_path("E:", PathStyle::Windows), "E:ul.cfg");
    assert_eq!(ulcfg_path("E:\\games", PathStyle::Windows), "E:\\games\\ul.cfg");
    assert_eq!(ulcfg_path("a\\", PathStyle::Unix), "a\\/ul.cfg");
    let verbatim = |dir: &str| ulcfg_path(dir, PathStyle::Windows);
    assert_eq!(verbatim(r"\\?\E:\"), r"\\?\E:\ul.cfg");
    assert_eq!(verbatim(r"\\?\E:"), r"\\?\E:\ul.cfg");
    assert_eq!(verbatim(r"\\?\E:\games\\ps2\\"), r"\\?\E:\games\ps2\ul.cfg");
    assert_eq!(verbatim(r"\\?\UNC\server\share"), r"\\?\UNC\server\share\ul.cfg");
    assert_eq!(ulcfg_path(r"\\?\E:", PathStyle::Unix), r"\\?\E:/ul.cfg");
    assert!(can_join(r"\\?\E:\a", PathStyle::Windows));
    assert!(can_join(r"\\server\share", PathStyle::Windows));
    for odd in [r"\\?\", r"\\?\\a", r"\\?\E:/a", r"\\?\UNC\", r"\\?\UNC\\share"] {
        assert!(!can_join(odd, PathStyle::Windows));
        assert!(can_join(odd, PathStyle::Unix));
    }
}

#[test]
fn list_errors_in_words() {
    assert_eq!(UlCfgError::Io("no".into()).message(), "IO error: no");
    assert_eq!(UlCfgError::Parse("bad".into()).message(), "Parse error: bad");
}

// ---------------------------------------------------------------- images

fn image(size: u64) -> IsoImage {
    IsoImage {
        size,
        descriptor: Ok(vec![0, 0, 0, 0, 0, 0]),
        udf: Ok(None),
        head: None,
        label: None,
    }
}

#[test]
fn test_validate_nonexistent() {
    let result = validate_iso("/nonexistent.iso", &IsoProbe::Missing);
    assert!(result.is_err());
    assert_eq!(result.unwrap_err().message(), "File not found: /nonexistent.iso");
}

#[test]
fn test_validate_too_small() {
    let result = validate_iso("test_small.iso", &IsoProbe::Found(image(100))).unwrap();
    assert!(!result.valid);
    assert!(result.error.is_some());
    assert_eq!(result.size, 100);
}

#[test]
fn iso9660_and_udf_images_are_valid() {
    let mut img = image(1 << 30);
    img.descriptor = Ok(vec![1, b'C', b'D', b'0', b'0', b'1']);
    img.head = Some(b"\r\nBOOT2 = cdrom0:\\SLUS_217.46;1\r\n".to_vec());
    img.label = Some(b"GOD OF WAR                              ".to_vec());
    let info = validate_iso("a.iso", &IsoProbe::Found(img)).unwrap();
    assert!(info.valid);
    assert_eq!(info.format.as_deref(), Some("ISO9660"));
    assert_eq!(info.game_id.as_deref(), Some("SLUS_21746"));
    assert_eq!(info.title.as_deref(), Some("GOD OF WAR"));

    let mut img = image(1 << 30);
    img.udf = Ok(Some(b"BEA01".to_vec()));
    img.label = Some(b"LABEL".to_vec());
    let info = validate_iso("a.iso", &IsoProbe::Found(img)).unwrap();
    assert_eq!(info.format.as_deref(), Some("UDF"));
    assert_eq!(info.title, None);
}

#[test]
fn other_files_are_refused() {
    let info = validate_iso("a.iso", &IsoProbe::Found(image(1 << 30))).unwrap();
    assert!(!info.valid);
    assert_eq!(info.error.as_deref(), Some("Not a valid ISO9660/UDF image"));
    let failed = validate_iso("a.iso", &IsoProbe::Failed("denied".into()));
    assert_eq!(failed.unwrap_err().message(), "IO error: denied");
    let mut img = image(1 << 30);
    img.descriptor = Err("gone".into());
    let unread = validate_iso("a.iso", &IsoProbe::Found(img));
    assert!(matches!(unread, Err(IsoError::Io(_))));
}

#[test]
fn startup_id_keeps_its_dot() {
    let head = b"VER = 1.00\nBOOT2 = cdrom0:\\ SCES_500.01 ;1\nBOOT2 = cdrom0:\\X;1";
    assert_eq!(extract_startup(head).as_deref(), Some("SCES_500.01"));
    assert_eq!(extract_game_id(head).unwrap(), " SCES_50001 ");
    assert_eq!(extract_startup(b"BOOT = cdrom0:\\X;1"), None);
    assert_eq!(
        extract_game_id(b"").unwrap_err().message(),
        "Invalid ISO: SYSTEM.CNF not found"
    );
}

#[test]
fn labels_lose_their_padding() {
    assert_eq!(extract_volume_label(b"LABEL   ").as_deref(), Some("LABEL"));
    assert_eq!(extract_volume_label(b"LABEL\0\0").as_deref(), Some("LABEL"));
    assert_eq!(extract_volume_label(b"LABEL \0").as_deref(), Some("LABEL "));
    assert_eq!(extract_volume_label(b"    "), None);
}

#[test]
fn at_most_four_mib_are_searched() {
    assert_eq!(search_len(10), 10);
    assert_eq!(search_len(5 * 1024 * 1024), 4 * 1024 * 1024);
}

#[test]
fn white_space_around_a_boot_path_is_trimmed() {
    let boot = |c: char| {
        let line = format!("BOOT2 = cdrom0:\\{}SLUS_217.46{};1", c, c);
        extract_startup(line.as_bytes()).unwrap()
    };
    let spaces = "\t\u{B}\u{C}\r \u{85}\u{A0}\u{1680}\u{2000}\u{2001}\u{2002}\u{2003}\u{2004}\u{2005}\
        \u{2006}\u{2007}\u{2008}\u{2009}\u{200A}\u{2028}\u{2029}\u{202F}\u{205F}\u{3000}";
    for c in spaces.chars() {
        assert_eq!(boot(c), "SLUS_217.46");
    }
    for c in "\u{8}\u{E}\u{180E}\u{200B}\u{2060}\u{FEFF}".chars() {
        assert_eq!(boot(c), format!("{}SLUS_217.46{}", c, c));
    }
}

#[test]
fn media_type_by_mark_and_size() {
    let mib = 1024 * 1024;
    assert_eq!(detect_media_type(Some(100 * mib), Some(b"BEA01")), MEDIA_DVD);
    assert_eq!(detect_media_type(Some(100 * mib), Some(b"NSR02")), MEDIA_CD);
    assert_eq!(detect_media_type(Some(700 * mib), None), MEDIA_CD);
    assert_eq!(detect_media_type(Some(700 * mib + 1), None), MEDIA_DVD);
    assert_eq!(detect_media_type(None, None), MEDIA_CD);
    assert_eq!(detect_media_type(Some(100), Some(b"BEA01")), MEDIA_CD);
    assert_eq!(detect_media_type(Some(0x80005), Some(b"BEA01")), MEDIA_DVD);
    assert_eq!(detect_media_type(Some(0x80004), Some(b"BEA01")), MEDIA_CD);
}

// ---------------------------------------------------------------- checksums of chunks

fn checksum(algo: ChecksumAlgo, blocks: &[&[u8]]) -> String {
    let mut h = ChunkHasher::new(algo);
    for b in blocks {
        h.update(b);
    }
    h.finalize()
}

#[test]
fn crc32_and_sha256_run_over_all_blocks() {
    assert_eq!(checksum(ChecksumAlgo::Crc32, &[b"123456789"]), "cbf43926");
    assert_eq!(checksum(ChecksumAlgo::Crc32, &[b"1234", b"", b"56789"]), "cbf43926");
    assert_eq!(checksum(ChecksumAlgo::Crc32, &[]), "00000000");
    let abc = "ba7816bf8f01cfea414140de5dae2223b00361a396177a9cb410ff61f20015ad";
    assert_eq!(checksum(ChecksumAlgo::Sha256, &[b"abc"]), abc);
    assert_eq!(checksum(ChecksumAlgo::Sha256, &[b"a", b"bc"]), abc);
}

#[test]
fn xxhash_runs_over_all_blocks() {
    let whole = |data: &[u8]| format!("{:016x}", xxhash_rust::xxh3::xxh3_64(data));
    assert_eq!(checksum(ChecksumAlgo::Xxhash, &[b"last"]), whole(b"last"));
    assert_eq!(checksum(ChecksumAlgo::Xxhash, &[b"first", b"last"]), whole(b"firstlast"));
    assert_ne!(checksum(ChecksumAlgo::Xxhash, &[b"First", b"last"]), whole(b"firstlast"));
    assert_eq!(checksum(ChecksumAlgo::Xxhash, &[b""]), "2d06800538d394c2");
    assert_eq!(checksum(ChecksumAlgo::Xxhash, &[]), "2d06800538d394c2");
    let data: Vec<u8> = (0..5000u32).map(|i| (i * 7 % 251) as u8).collect();
    for len in [1, 16, 17, 128, 129, 240, 241, 256, 257, 1024, 1025, 5000] {
        for at in [0, 1, 64, 255, 256, 300] {
            let at = at.min(len);
            let parts = [&data[..at], &data[at..len]];
            assert_eq!(checksum(ChecksumAlgo::Xxhash, &parts), whole(&data[..len]));
        }
    }
}

#[test]
fn the_parting_into_blocks_does_not_matter() {
    let data: Vec<u8> = (0..1000u32).map(|i| (i * i % 253) as u8).collect();
    for algo in [ChecksumAlgo::Crc32, ChecksumAlgo::Xxhash, ChecksumAlgo::Sha256] {
        let whole = checksum(algo, &[&data]);
        let blocks: Vec<&[u8]> = data.chunks(37).collect();
        assert_eq!(checksum(algo, &blocks), whole);
    }
}
