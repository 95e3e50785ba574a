use ps2_backup_tool::chunks::{
    can_count_chunks, detect_media, group_chunks, parse_chunk_name, DirFile,
};
use ps2_backup_tool::games::{
    can_list_games, chunk_files_of, generate_ulcfg, has_sum, list_device_games, sort_ulcfg,
    sum_chunk_sizes, verify_games, IsoFile, ListedGame,
};
use ps2_backup_tool::manage::{delete_game, rename_game, DeletePlan, RenameRun};
use ps2_backup_tool::opl_crc::crc32_hex;
use ps2_backup_tool::repair::{
    evidence_names, games_to_repair, null_str, old_chunk_file_name, parse_old_ulcfg,
    rename_failure, renames_part, repair_split_files,
};
use ps2_backup_tool::split::chunk_file_name;
use ps2_backup_tool::ulcfg::{self, parse_ulcfg, write_ulcfg, UlEntry};

fn entry(title: &str, game_id: &str, parts: u16, media: u8) -> UlEntry {
    UlEntry {
        title: title.into(),
        game_id: game_id.into(),
        parts,
        media,
        mount_point: String::new(),
    }
}

fn file(name: &str, size: u64) -> DirFile {
    DirFile { name: name.into(), size }
}

fn names(list: &[&str]) -> Vec<String> {
    list.iter().map(|s| s.to_string()).collect()
}

// ---------------------------------------------------------------- chunk files

#[test]
fn test_parse_chunk_name() {
    assert_eq!(
        parse_chunk_name("ul.FBDF6400.SLUS_217.46.00"),
        Some(("FBDF6400".into(), "SLUS_217.46".into(), "00".into()))
    );
    assert_eq!(
        parse_chunk_name("ul.0A1B2C3D.SCUS_971.24.02"),
        Some(("0A1B2C3D".into(), "SCUS_971.24".into(), "02".into()))
    );
    assert_eq!(parse_chunk_name("ul.cfg"), None);
    assert_eq!(parse_chunk_name("random.iso"), None);
    // Too few tokens is not a valid chunk name.
    assert_eq!(parse_chunk_name("ul.SLUS_21746"), None);
}

#[test]
fn chunk_names_need_a_checksum_and_an_id() {
    assert_eq!(parse_chunk_name("ul..ID.00"), None);
    assert_eq!(parse_chunk_name("ul.CRC..00"), None);
    assert_eq!(parse_chunk_name("ul.CRC.00"), None);
    assert_eq!(parse_chunk_name("ul.a.b."), Some(("a".into(), "b".into(), "".into())));
    assert_eq!(parse_chunk_name(""), None);
}

#[test]
fn chunk_names_read_back() {
    assert_eq!(chunk_file_name("574F9590", "SLUS_217.46", 10), "ul.574F9590.SLUS_217.46.0A");
    let name = chunk_file_name(&crc32_hex("God of War"), "SLUS_217.46", 300);
    assert_eq!(
        parse_chunk_name(&name),
        Some(("574F9590".into(), "SLUS_217.46".into(), "12C".into()))
    );
}

#[test]
fn test_detect_media() {
    assert_eq!(detect_media(600 * 1024 * 1024), ulcfg::MEDIA_CD);
    assert_eq!(detect_media(3 * 1024 * 1024 * 1024), ulcfg::MEDIA_DVD);
}

#[test]
fn media_changes_above_700_mib() {
    assert_eq!(detect_media(700 * 1024 * 1024), ulcfg::MEDIA_CD);
    assert_eq!(detect_media(700 * 1024 * 1024 + 1), ulcfg::MEDIA_DVD);
}

#[test]
fn chunks_are_grouped_by_game_in_order() {
    let files = [
        file("ul.CRC1.ZZZZ_000.01.00", 10),
        file("ul.CRC2.AAAA_000.01.00", 1),
        file("ul.cfg", 64),
        file("ul.CRC3.ZZZZ_000.01.01", 5),
        file("ul.CRC4.MMMM_000.01.00", 7),
    ];
    assert!(can_count_chunks(&files, &[]));
    let groups = group_chunks(&files, &names(&["MMMM_000.01"]));
    assert_eq!(groups.len(), 2);
    assert_eq!(groups[0].game_id, "AAAA_000.01");
    assert_eq!(groups[1].game_id, "ZZZZ_000.01");
    assert_eq!(groups[1].crc, "CRC1");
    assert_eq!((groups[1].parts, groups[1].total), (2, 15));
}

#[test]
fn too_many_or_too_large_chunks_cannot_be_counted() {
    let large = [file("ul.C.G.00", u64::MAX), file("ul.C.G.01", 1)];
    assert!(!can_count_chunks(&large, &[]));
    assert!(can_count_chunks(&large, &names(&["G"])));
    let apart = [file("ul.C.G.00", u64::MAX), file("ul.C.H.01", 1)];
    assert!(can_count_chunks(&apart, &[]));
}

// ---------------------------------------------------------------- rebuilding the list

#[test]
fn the_list_is_rebuilt_from_the_chunks() {
    let old = write_ulcfg(&[
        entry("God of War", "SLUS_217.46", 9, ulcfg::MEDIA_CD),
        entry("Lost", "LOST_000.00", 1, ulcfg::MEDIA_DVD),
        entry("Game A", "WRONG_ID", 1, ulcfg::MEDIA_DVD),
    ]);
    let files = [
        file("ul.574F9590.SLUS_217.46.00", 5),
        file("ul.574F9590.SLUS_217.46.01", 5),
        file("ul.C195B7A5.GAMA_000.01.00", 800 * 1024 * 1024),
        file("ul.DEADBEEF.NONE_000.01.00", 5),
    ];
    let (count, data) = generate_ulcfg(&old, &files, "/media/usb");
    assert_eq!(count, 3);
    let list = parse_ulcfg(&data);
    let found: Vec<_> = list.iter().map(|e| (e.title.as_str(), e.game_id.as_str(), e.parts, e.media)).collect();
    assert_eq!(
        found,
        [
            ("Game A", "GAMA_000.01", 1, ulcfg::MEDIA_DVD),
            ("NONE_000.01", "NONE_000.01", 1, ulcfg::MEDIA_CD),
            ("God of War", "SLUS_217.46", 2, ulcfg::MEDIA_CD),
        ]
    );
}

#[test]
fn the_last_entry_of_a_game_names_it() {
    let old = write_ulcfg(&[
        entry("First", "GAME_000.01", 1, ulcfg::MEDIA_DVD),
        entry("Second", "GAME_000.01", 1, ulcfg::MEDIA_CD),
        entry("Game B", "AAAA", 1, ulcfg::MEDIA_DVD),
        entry("Game B", "CCCC", 1, ulcfg::MEDIA_DVD),
    ]);
    let files = [file("ul.X.GAME_000.01.00", 1), file("ul.B37EE876.NEW_000.01.00", 1)];
    let (_, data) = generate_ulcfg(&old, &files, "");
    let list = parse_ulcfg(&data);
    assert_eq!((list[0].title.as_str(), list[0].media), ("Second", ulcfg::MEDIA_CD));
    assert_eq!(list[1].title, "Game B");
    let (none, data) = generate_ulcfg(&old, &[], "");
    assert_eq!((none, data.len()), (0, 0));
}

#[test]
fn rebuilding_again_changes_nothing() {
    let files = [file("ul.X.AAAA_000.01.00", 1), file("ul.Y.BBBB_000.02.00", 2)];
    let (_, once) = generate_ulcfg(&[], &files, "/d");
    let (count, twice) = generate_ulcfg(&once, &files, "/d");
    assert_eq!(count, 2);
    assert_eq!(once, twice);
}

// ---------------------------------------------------------------- checking and listing

fn listed(e: UlEntry, sizes: &[Option<u64>]) -> ListedGame {
    ListedGame { entry: e, sizes: sizes.to_vec() }
}

#[test]
fn the_loader_looks_for_these_chunks() {
    let e = entry("God of War", "SLUS_217.46", 2, ulcfg::MEDIA_DVD);
    assert_eq!(
        chunk_files_of(&e),
        ["ul.574F9590.SLUS_217.46.00", "ul.574F9590.SLUS_217.46.01"]
    );
    let none = entry("God of War", "SLUS_217.46", 0, ulcfg::MEDIA_DVD);
    assert_eq!(chunk_files_of(&none), ["ul.574F9590.SLUS_217.46.00"]);
}

#[test]
fn complete_games_are_verified() {
    let e = |parts| entry("T", "I", parts, ulcfg::MEDIA_DVD);
    let r = verify_games(&[
        listed(e(2), &[Some(5), Some(1)]),
        listed(e(2), &[Some(5), None]),
        listed(e(1), &[Some(0)]),
        listed(e(0), &[Some(5)]),
        listed(e(1), &[Some(9)]),
    ]);
    assert_eq!((r.verified, r.errors), (2, 3));
}

#[test]
fn sizes_of_missing_chunks_count_nothing() {
    assert_eq!(sum_chunk_sizes(&[Some(3), None, Some(4)]), 7);
    assert!(has_sum(&[Some(u64::MAX)]));
    assert!(!has_sum(&[Some(u64::MAX), Some(1)]));
}

#[test]
fn all_games_of_a_device_are_listed() {
    let list = [listed(entry("God of War", "SLUS_217.46", 2, ulcfg::MEDIA_DVD), &[Some(5), None])];
    let cd = [
        IsoFile { name: "SCES_500.01.iso".into(), size: 9, label: Some(b"LABEL   ".to_vec()) },
        IsoFile { name: ".iso".into(), size: 1, label: None },
        IsoFile { name: "readme.txt".into(), size: 1, label: None },
    ];
    let dvd = [IsoFile { name: "SLES_500.02.iso".into(), size: 8, label: None }];
    let root = [
        file("ul.574F9590.SLUS_217.46.00", 5),
        file("ul.X.SLES_500.02.00", 5),
        file("ul.X.ORPH_000.01.00", 5),
        file("ul.X.ORPH_000.01.01", 6),
    ];
    assert!(can_list_games(&list, &cd, &dvd, &root));
    let games = list_device_games(&list, &cd, &dvd, &root);
    let found: Vec<_> = games
        .iter()
        .map(|g| {
            (
                g.game_id.as_str(),
                g.title.as_str(),
                g.parts,
                g.size,
                g.location.as_str(),
                g.mode.as_str(),
            )
        })
        .collect();
    assert_eq!(
        found,
        [
            ("SLUS_217.46", "God of War", 2, 5, "root", "split"),
            ("SCES_500.01", "LABEL", 1, 9, "CD", "nosplit"),
            ("SLES_500.02", "SLES_500.02", 1, 8, "DVD", "nosplit"),
            ("ORPH_000.01", "ORPH_000.01", 2, 11, "root", "split"),
        ]
    );
    let huge = [listed(entry("A", "B", 2, 0), &[Some(u64::MAX), Some(1)])];
    assert!(!can_list_games(&huge, &[], &[], &[]));
}

// ---------------------------------------------------------------- sorting

#[test]
fn the_list_is_sorted() {
    let data = write_ulcfg(&[
        entry("banana", "B", 2, ulcfg::MEDIA_DVD),
        entry("Cherry", "C", 1, ulcfg::MEDIA_DVD),
        entry("Apple", "A", 2, ulcfg::MEDIA_DVD),
    ]);
    let order = |by: &str| -> String {
        let (count, sorted) = sort_ulcfg(&data, by);
        assert_eq!(count, 3);
        parse_ulcfg(&sorted).iter().map(|e| e.game_id.as_str()).collect()
    };
    assert_eq!(order("name"), "ABC");
    assert_eq!(order("name-desc"), "CBA");
    assert_eq!(order("size"), "CBA");
    assert_eq!(order("size-desc"), "BAC");
    assert_eq!(order("other"), "BCA");
}

#[test]
fn sorting_again_changes_nothing() {
    let data = write_ulcfg(&[
        entry("beta", "B", 2, 0x99),
        entry("Alpha", "A1", 1, ulcfg::MEDIA_CD),
        entry("alpha", "A2", 300, ulcfg::MEDIA_DVD),
        entry("ABCDEFGHIJKLMNOPQRSTUVWXYZ012345", "SLUS_2174.46", 2, ulcfg::MEDIA_DVD),
    ]);
    for by in ["name", "name-desc", "size", "size-desc", "other"] {
        let (_, once) = sort_ulcfg(&data, by);
        let (count, twice) = sort_ulcfg(&once, by);
        assert_eq!(count, 4);
        assert_eq!(once, twice);
    }
}

// ---------------------------------------------------------------- deleting and renaming

#[test]
fn deleting_a_game() {
    let dir = names(&["ul.A.GAME_000.01.00", "ul.B.GAME_000.01.01", "ul.A.OTHR_000.01.00", "ul.cfg"]);
    match delete_game("GAME_000.01", "split", "root", &dir) {
        DeletePlan::Chunks(found) => {
            assert_eq!(found, ["ul.A.GAME_000.01.00", "ul.B.GAME_000.01.01"]);
        }
        DeletePlan::Image { .. } => panic!("not an image"),
    }
    match delete_game("GAME_000.01", "nosplit", "DVD", &dir) {
        DeletePlan::Image { dir, file } => assert_eq!((dir.as_str(), file.as_str()), ("DVD", "GAME_000.01.iso")),
        DeletePlan::Chunks(_) => panic!("an image"),
    }
}

#[test]
fn renaming_a_game() {
    let data = write_ulcfg(&[
        entry("God of War", "SLUS_217.46", 2, ulcfg::MEDIA_DVD),
        entry("Game A", "GAMA_000.01", 1, ulcfg::MEDIA_DVD),
    ]);
    let dir = names(&[
        "ul.574F9590.SLUS_217.46.00",
        "ul.574F9590.SLUS_217.46.0A",
        "ul.574F9590.SLUS_217.46.zz",
        "ul.DEADBEEF.SLUS_217.46.01",
        "ul.574F9590.GAMA_000.01.00",
    ]);
    let plan = rename_game("SLUS_217.46", "split", "New Name", Some(&data), &dir).unwrap();
    assert_eq!(
        plan.pairs,
        [
            ("ul.574F9590.SLUS_217.46.00".to_string(), "ul.819AEB10.SLUS_217.46.00".to_string()),
            ("ul.574F9590.SLUS_217.46.0A".to_string(), "ul.819AEB10.SLUS_217.46.0A".to_string()),
            ("ul.574F9590.SLUS_217.46.zz".to_string(), "ul.819AEB10.SLUS_217.46.00".to_string()),
        ]
    );
    let list = parse_ulcfg(&plan.data);
    assert_eq!(list[0].title, "New Name");
    assert_eq!(list[1].title, "Game A");
    let same = rename_game("SLUS_217.46", "split", "God of War", Some(&data), &dir).unwrap();
    assert!(same.pairs.is_empty());
}

#[test]
fn every_chunk_is_to_be_renamed() {
    let data = write_ulcfg(&[entry("God of War", "G_1", 1, ulcfg::MEDIA_DVD)]);
    let dir = names(&["ul.574F9590.G_1.0", "ul.574F9590.G_1.00", "ul.574F9590.G_1.1"]);
    let plan = rename_game("G_1", "split", "New Name", Some(&data), &dir).unwrap();
    assert_eq!(
        plan.pairs,
        [
            ("ul.574F9590.G_1.0".to_string(), "ul.819AEB10.G_1.00".to_string()),
            ("ul.574F9590.G_1.00".to_string(), "ul.819AEB10.G_1.00".to_string()),
            ("ul.574F9590.G_1.1".to_string(), "ul.819AEB10.G_1.01".to_string()),
        ]
    );
}

#[test]
fn a_renamed_game_hashes_to_its_chunks() {
    let data = write_ulcfg(&[entry("God of War", "G_1", 1, ulcfg::MEDIA_DVD)]);
    let dir = names(&["ul.574F9590.G_1.00"]);
    for new in ["Spaces  ", "A\0B", &"é".repeat(20), &"x".repeat(40), "New Name"] {
        let plan = rename_game("G_1", "split", new, Some(&data), &dir).unwrap();
        let list = parse_ulcfg(&plan.data);
        assert_eq!(list[0].title, ulcfg::shorten_title(new));
        assert_eq!(chunk_files_of(&list[0]), [plan.pairs[0].1.clone()]);
    }
}

#[test]
fn renaming_may_be_refused() {
    let refused = |mode: &str, data: Option<&[u8]>| rename_game("X", mode, "T", data, &[]).unwrap_err();
    assert_eq!(
        refused("nosplit", None),
        "Rename is only supported for split-mode games (ul.cfg)"
    );
    assert_eq!(refused("split", None), "ul.cfg not found");
    assert_eq!(refused("split", Some(&[])), "Game X not found in ul.cfg");
}

#[test]
fn a_failed_rename_is_rolled_back() {
    let pair = |a: &str, b: &str| (a.to_string(), b.to_string());
    let pairs = vec![pair("a", "A"), pair("b", "B"), pair("c", "C"), pair("d", "D")];
    let mut run = RenameRun::start(pairs, &[false, true, false, false]);
    assert_eq!(run.next_rename(), Some(pair("a", "A")));
    run.renamed();
    assert_eq!(run.next_rename(), Some(pair("c", "C")));
    run.renamed();
    assert_eq!(run.next_rename(), Some(pair("d", "D")));
    let (back, error) = run.failed("disk full");
    assert_eq!(back, [pair("A", "a"), pair("C", "c")]);
    assert_eq!(error, "Failed to rename d: disk full. All changes rolled back.");
    assert_eq!(RenameRun::start(vec![], &[]).next_rename(), None);
}

#[test]
fn rolling_back_restores_the_directory() {
    let data = write_ulcfg(&[entry("God of War", "G_1", 3, ulcfg::MEDIA_DVD)]);
    let dir = names(&["ul.574F9590.G_1.00", "ul.574F9590.G_1.01", "ul.574F9590.G_1.02", "x"]);
    let plan = rename_game("G_1", "split", "New Name", Some(&data), &dir).unwrap();
    let mut now = dir.clone();
    let mut rename = |from: &str, to: &str, now: &mut Vec<String>| {
        let at = now.iter().position(|n| n == from).unwrap();
        now[at] = to.to_string();
    };
    let mut run = RenameRun::start(plan.pairs, &[false, false, false]);
    for _ in 0..2 {
        let (old, new) = run.next_rename().unwrap();
        rename(&old, &new, &mut now);
        run.renamed();
    }
    assert_eq!(now[1], "ul.819AEB10.G_1.01");
    let (back, _) = run.failed("full");
    for (from, to) in back {
        rename(&from, &to, &mut now);
    }
    assert_eq!(now, dir);
}

// ---------------------------------------------------------------- the old layout

fn old_record(title: &str, parts: u16, id: &str) -> Vec<u8> {
    let mut rec = vec![0u8; 66];
    rec[..title.len()].copy_from_slice(title.as_bytes());
    rec[32..34].copy_from_slice(&parts.to_le_bytes());
    rec[34..34 + id.len()].copy_from_slice(id.as_bytes());
    rec
}

#[test]
fn old_lists_are_read() {
    let mut data = old_record("Old Game ", 2, "SLUS_1");
    data.extend(old_record("", 2, "SKIP"));
    data.extend(old_record("Many", 4000, "SLUS_2"));
    data.extend(old_record("None", 0, "SLUS_3"));
    data.extend([1u8; 65]);
    let games = parse_old_ulcfg(&data);
    let found: Vec<_> = games.iter().map(|g| (g.title.as_str(), g.game_id.as_str(), g.parts)).collect();
    assert_eq!(found, [("Old Game ", "SLUS_1", 2), ("Many", "SLUS_2", 255), ("None", "SLUS_3", 1)]);
    assert_eq!(null_str(b"ab\0cd"), "ab");
    assert_eq!(null_str(b"ab "), "ab ");
    assert_eq!(games_to_repair(Some(&data)).len(), 3);
    assert!(games_to_repair(None).is_empty());
    let new = write_ulcfg(&[entry("A", "B", 1, ulcfg::MEDIA_CD)]);
    assert!(games_to_repair(Some(&new)).is_empty());
}

#[test]
fn repaired_names_hash_to_their_chunks() {
    let data = old_record("Old Game ", 1, "SLUS_1");
    let mut run = repair_split_files(games_to_repair(Some(&data)), &[true], "/d").unwrap();
    assert_eq!(run.next_part().unwrap().new, "ul.C3D86FF6.SLUS_1.00");
    assert!(run.can_count(Some(u64::MAX)));
    run.part_done(true, Some(1));
    let (_, list) = run.finish();
    let list = parse_ulcfg(&list);
    assert_eq!(list[0].title, "Old Game");
    assert_eq!(chunk_files_of(&list[0]), ["ul.C3D86FF6.SLUS_1.00"]);
    let data = old_record("Old Game", 2, "SLUS_1");
    let mut run = repair_split_files(games_to_repair(Some(&data)), &[true], "/d").unwrap();
    run.part_done(true, Some(1));
    assert!(!run.can_count(Some(u64::MAX)));
    assert!(run.can_count(None));
}

#[test]
fn old_chunks_have_old_names() {
    assert_eq!(old_chunk_file_name("SLUS_1", 0), "ul.SLUS_1");
    assert_eq!(old_chunk_file_name("SLUS_1", 3), "ul.SLUS_1.03");
    assert_eq!(old_chunk_file_name("SLUS_1", 123), "ul.SLUS_1.123");
}

#[test]
fn old_games_are_brought_over() {
    let mut data = old_record("Old Game", 2, "SLUS_1");
    data.extend(old_record("Game A", 1, "SLUS_2"));
    let games = games_to_repair(Some(&data));
    assert_eq!(evidence_names(&games), ["ul.SLUS_1", "ul.SLUS_2"]);
    assert!(repair_split_files(games_to_repair(Some(&data)), &[false, false], "/d").is_none());
    assert!(repair_split_files(vec![], &[true], "/d").is_none());
    let mut run = repair_split_files(games, &[true, false], "/d").unwrap();
    let part = run.next_part().unwrap();
    assert_eq!((part.old.as_str(), part.new.as_str()), ("ul.SLUS_1", "ul.C3D86FF6.SLUS_1.00"));
    assert!(renames_part(&part, true, false));
    assert!(!renames_part(&part, true, true));
    assert!(!renames_part(&part, false, false));
    assert_eq!(rename_failure(&part, "busy"), "Failed to rename ul.SLUS_1: busy");
    run.part_done(true, Some(600 * 1024 * 1024));
    let part = run.next_part().unwrap();
    assert_eq!((part.old.as_str(), part.new.as_str()), ("ul.SLUS_1.01", "ul.C3D86FF6.SLUS_1.01"));
    run.part_done(false, Some(600 * 1024 * 1024));
    assert_eq!(run.next_part().unwrap().old, "ul.SLUS_2");
    run.part_done(false, None);
    assert!(run.next_part().is_none());
    let (migrated, list) = run.finish();
    assert_eq!(migrated, 1);
    let list = parse_ulcfg(&list);
    assert_eq!((list[0].title.as_str(), list[0].parts, list[0].media), ("Old Game", 2, ulcfg::MEDIA_DVD));
    assert_eq!((list[1].title.as_str(), list[1].parts, list[1].media), ("Game A", 1, ulcfg::MEDIA_CD));
}
