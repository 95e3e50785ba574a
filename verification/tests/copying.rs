use ps2_backup_tool::checksum::ChecksumAlgo;
use ps2_backup_tool::copy::{
    copy_error, copy_folder_ordered, is_already_there, CopyStage, CopyStream, FileEvent,
};
use ps2_backup_tool::defrag::{
    advance, fragmented_size, is_rewritable, temp_name, DefragEvent, DefragResult, DefragStep, FileOutcome,
};
use ps2_backup_tool::extents::ContiguityResult;
use ps2_backup_tool::filesystem::{FilesystemType, FsError};
use ps2_backup_tool::games::chunk_files_of;
use ps2_backup_tool::opl_crc::crc32_hex;
use ps2_backup_tool::process::{
    choose_title, entry_for, finish_result, health_warnings, looks_like_game_id, process_iso,
    use_split, ImageFacts, ProcessPlan,
};
use ps2_backup_tool::restore::{
    can_scan, collect_source_files, scan_source_folder, FolderEntry, SourceFile, SourceKind,
    SubEntry,
};
use ps2_backup_tool::split::{
    can_split, chunk_span, chunk_verified, copy_iso_nosplit, count_chunks, decide_after_attempt,
    iso_file_name, media_dir, nosplit_progress, split_file_name, split_iso, AfterAttempt, ChunkCopy, ChunkNaming,
    ChunkResult, SplitConfig, SplitError,
};
use ps2_backup_tool::ulcfg::{add_entry, parse_ulcfg, MEDIA_CD, MEDIA_DVD};

fn config(chunk_size: u64) -> SplitConfig {
    SplitConfig { chunk_size, ..SplitConfig::default() }
}

// ---------------------------------------------------------------- splitting

#[test]
fn test_split_config_default() {
    let config = SplitConfig::default();
    assert_eq!(config.chunk_size, 4_294_967_294);
    assert_eq!(config.buffer_size, 8 * 1024 * 1024);
    assert_eq!(config.max_retries, 3);
}

#[test]
fn chunks_are_counted() {
    assert_eq!(count_chunks(10, &config(4)).unwrap(), 3);
    assert_eq!(count_chunks(8, &config(4)).unwrap(), 2);
    assert_eq!(count_chunks(1, &config(4)).unwrap(), 1);
    assert_eq!(
        count_chunks(0, &config(4)).unwrap_err().message(),
        "Invalid split parameters: Source file is empty"
    );
    assert!(can_split(10, 4));
    assert!(can_split(0, 4));
    assert!(!can_split(10, 0));
    assert!(can_split(42_949_672, 1));
    assert!(!can_split(42_949_673, 1));
    assert!(!can_split(u64::MAX, 2));
    assert_eq!(chunk_span(10, 4, 0), (0, 4));
    assert_eq!(chunk_span(10, 4, 2), (8, 2));
}

#[test]
fn chunks_have_names() {
    let plain = ChunkNaming::Plain;
    assert_eq!(split_file_name(&plain, "SLUS_217.46", 1, 0), "ul.SLUS_217.46");
    assert_eq!(split_file_name(&plain, "SLUS_217.46", 3, 0), "ul.SLUS_217.46.00");
    assert_eq!(split_file_name(&plain, "SLUS_217.46", 3, 2), "ul.SLUS_217.46.02");
    let named = ChunkNaming::Checksum("574F9590".into());
    assert_eq!(split_file_name(&named, "SLUS_217.46", 1, 0), "ul.574F9590.SLUS_217.46.00");
    assert_eq!(media_dir(MEDIA_CD), "CD");
    assert_eq!(media_dir(MEDIA_DVD), "DVD");
    assert_eq!(iso_file_name("SLUS_217.46"), "SLUS_217.46.iso");
}

#[test]
fn an_image_is_split() {
    let mut run = split_iso(10, ChunkNaming::Plain, "G".into(), config(4)).unwrap();
    let mut total = 0;
    let mut pcts = vec![];
    while let Some(plan) = run.next_chunk() {
        assert_eq!(plan.start, total);
        assert!(matches!(run.attempted(true), AfterAttempt::Done));
        total += plan.size;
        let progress = run.completed(plan.name, format!("sum{}", plan.index), true);
        pcts.push(progress.pct);
    }
    assert_eq!(pcts, [33, 66, 100]);
    let result = run.finish();
    assert!(result.success);
    assert_eq!((total, result.total_size), (10, 10));
    assert_eq!(result.chunks.iter().map(|c| c.size).sum::<u64>(), 10);
    assert_eq!(result.chunks[2].path, "ul.G.02");
    assert_eq!(result.chunks[1].checksum, "sum1");
    assert!(result.error.is_none() && result.warnings.is_empty());
    assert!(split_iso(0, ChunkNaming::Plain, "G".into(), config(4)).is_err());
}

#[test]
fn a_chunk_is_tried_again() {
    let mut run = split_iso(10, ChunkNaming::Plain, "G".into(), config(4)).unwrap();
    assert!(matches!(run.attempted(true), AfterAttempt::Done));
    run.completed("p".into(), "s".into(), true);
    for attempt in 1..3 {
        match run.attempted(false) {
            AfterAttempt::Retry { progress, seek } => {
                assert_eq!(seek, 4);
                assert_eq!(progress.speed, format!("Retry {}/3", attempt));
                assert_eq!((progress.phase.as_str(), progress.chunk, progress.pct), ("retry", 1, 0));
            }
            _ => panic!("a retry is left"),
        }
    }
    match run.attempted(false) {
        AfterAttempt::GiveUp(e) => {
            assert_eq!(e.message(), "Max retries (3) exceeded for chunk 1");
        }
        _ => panic!("no retry is left"),
    }
    let once = SplitConfig { max_retries: 0, ..config(4) };
    assert!(matches!(decide_after_attempt(1, false, 0, 1, &once), AfterAttempt::GiveUp(_)));
}

#[test]
fn split_errors_in_words() {
    assert_eq!(SplitError::Io("x".into()).message(), "IO error: x");
    let mismatch = SplitError::ChecksumMismatch {
        chunk: 2,
        expected: "a".into(),
        actual: "b".into(),
    };
    assert_eq!(mismatch.message(), "Checksum mismatch for chunk 2: expected a, got b");
}

#[test]
fn a_chunk_is_copied_in_blocks() {
    let mut copy = ChunkCopy::start(9, ChecksumAlgo::Crc32);
    assert_eq!(copy.next_read(4), 4);
    copy.accept(b"1234");
    assert_eq!(copy.next_read(100), 5);
    assert!(!copy.is_complete());
    copy.accept(b"56789");
    assert!(copy.is_complete());
    let sum = copy.finish();
    assert_eq!(sum, "cbf43926");
    assert!(chunk_verified("cbf43926", &sum));
    assert!(!chunk_verified("00000000", &sum));
}

#[test]
fn an_image_is_copied_whole() {
    let progress = nosplit_progress();
    let result = copy_iso_nosplit("/d/DVD/G.iso".into(), 77, "sum".into(), false);
    assert_eq!((progress.pct, progress.chunk, progress.total_chunks), (100, 1, 1));
    assert_eq!(result.chunks.len(), 1);
    assert_eq!((result.chunks[0].size, result.chunks[0].verified), (77, false));
    assert_eq!(result.total_size, 77);
}

// ---------------------------------------------------------------- processing

#[test]
fn the_mode_decides_before_the_file_system() {
    assert!(use_split("split", &Some(FilesystemType::Ntfs)));
    assert!(!use_split("nosplit", &Some(FilesystemType::Fat32)));
    assert!(use_split("auto", &Some(FilesystemType::Fat32)));
    assert!(!use_split("auto", &Some(FilesystemType::ExFat)));
    assert!(use_split("auto", &None));
}

#[test]
fn game_ids_are_told_from_names() {
    assert!(looks_like_game_id("SLUS_217.46"));
    assert!(looks_like_game_id("SLUS_217."));
    assert!(!looks_like_game_id("slus_217.46"));
    assert!(!looks_like_game_id("SLUS-217.46"));
    assert!(!looks_like_game_id("SLUS_2X7.46"));
    assert!(!looks_like_game_id("SLUS_217,46"));
    assert!(!looks_like_game_id("SLUS_217.4X"));
    assert!(!looks_like_game_id("SLUS_217"));
}

#[test]
fn titles_prefer_the_file_name() {
    let label = |s: &str| Some(s.to_string());
    assert_eq!(choose_title("SLUS_200.00 - God of War.iso", label("LABEL")), "God of War");
    assert_eq!(choose_title("SLUS_200.00.iso", label("GOD OF WAR")), "GOD OF WAR");
    assert_eq!(choose_title("SLUS_200.00.iso", label("SCES_500.01")), "SLUS_200.00");
    assert_eq!(choose_title("SLUS_200.00.iso", label("")), "SLUS_200.00");
    assert_eq!(choose_title("SLUS_200.00.iso", None), "SLUS_200.00");
}

#[test]
fn long_titles_are_cut() {
    assert_eq!(choose_title(&format!("{}.iso", "x".repeat(33)), None), "x".repeat(32));
    assert_eq!(choose_title(&format!("{}.iso", "é".repeat(20)), None), "é".repeat(16));
    assert_eq!(choose_title("SLUS_200.00.iso", Some("é".repeat(40))), "é".repeat(16));
    assert_eq!(choose_title("x - Game .iso", None), "Game");
}

fn facts() -> ImageFacts {
    ImageFacts {
        file_name: "SLUS_217.46.iso".into(),
        head: Some(b"BOOT2 = cdrom0:\\SLUS_217.46;1\n".to_vec()),
        label: Some(b"GOD OF WAR  ".to_vec()),
        size: Some(1 << 30),
        udf: None,
        filesystem: Some(FilesystemType::Fat32),
    }
}

#[test]
fn a_game_is_planned_and_found_again() {
    let plan = process_iso(&facts(), "fallback", "auto");
    assert!(plan.use_split);
    assert_eq!((plan.game_id.as_str(), plan.title.as_str()), ("SLUS_217.46", "GOD OF WAR"));
    assert_eq!(plan.media, MEDIA_DVD);
    let entry = entry_for(&plan, 2, "/media/usb");
    assert_eq!((entry.parts, entry.mount_point.as_str()), (2, "/media/usb"));
    let list = parse_ulcfg(&add_entry(&[], &entry));
    let naming = ChunkNaming::Checksum(plan.crc_hex.clone());
    let written: Vec<String> =
        (0..2).map(|i| split_file_name(&naming, &plan.game_id, 2, i)).collect();
    assert_eq!(chunk_files_of(&list[0]), written);
    let blind = ImageFacts { head: None, label: None, size: None, filesystem: None, ..facts() };
    let plan = process_iso(&blind, "fallback", "nosplit");
    assert_eq!((plan.game_id.as_str(), plan.title.as_str()), ("fallback", "SLUS_217.46"));
    assert_eq!((plan.use_split, plan.media), (false, MEDIA_CD));
}

#[test]
fn the_listed_name_hashes_to_the_chunks() {
    let long = format!("SLUS_217.46 - {}.iso", "é".repeat(40));
    let edge = format!("{} tail.iso", "x".repeat(31));
    for name in ["Game .iso", "A - B\0C.iso", "ABCDEFGHIJKLMNOPQRSTUVWXYZ012345.iso", &long, &edge] {
        let plan = process_iso(&ImageFacts { file_name: name.into(), ..facts() }, "x", "split");
        let entry = entry_for(&plan, 3, "");
        let list = parse_ulcfg(&add_entry(&[], &entry));
        assert_eq!(crc32_hex(&list[0].title), plan.crc_hex);
        let naming = ChunkNaming::Checksum(plan.crc_hex.clone());
        let written: Vec<String> =
            (0..3).map(|i| split_file_name(&naming, &plan.game_id, 3, i)).collect();
        assert_eq!(chunk_files_of(&list[0]), written);
    }
}

#[test]
fn an_added_game_is_listed_whatever_was_there() {
    let mut junk = vec![0xFFu8; 64];
    junk.extend([0x20u8; 64]);
    let plan = process_iso(&facts(), "x", "split");
    let list = parse_ulcfg(&add_entry(&junk, &entry_for(&plan, 1, "")));
    let found = list.iter().find(|e| e.game_id == plan.game_id).unwrap();
    assert_eq!(found.title, plan.title);
    assert_eq!(crc32_hex(&found.title), plan.crc_hex);
}

fn chunk(index: u32, size: u64, verified: bool) -> ChunkResult {
    ChunkResult { index, path: String::new(), size, checksum: String::new(), verified }
}

#[test]
fn troubles_are_warned_of() {
    let plan = ProcessPlan {
        use_split: false,
        game_id: "SLUS_217.46.XX".into(),
        title: "T".into(),
        crc_hex: String::new(),
        media: 0x0A,
    };
    let w = health_warnings(&plan, &[chunk(0, 0, false), chunk(1, 100, true)], false);
    assert_eq!(
        w,
        [
            "Game ID \"SLUS_217.46.XX\" is 14 chars; only 12 fit in ul.cfg's image field. OPL may not locate chunk files.",
            "Unrecognised media type 0x0A (expected 0x12=CD or 0x14=DVD). Game may boot with wrong sector addressing.",
            "Chunk 00 failed checksum verification — copy may be corrupt. Delete and re-copy the game.",
            "Chunk 00 has zero size — source ISO may be truncated.",
            "Last chunk is only 100 bytes — ISO appears truncated. Obtain a complete ISO and re-copy.",
            "Expected ISO at DVD/SLUS_217.46.XX.iso but the file was not found. OPL will not see this game.",
        ]
    );
}

#[test]
fn a_sound_game_is_not_warned_of() {
    let plan = process_iso(&facts(), "x", "auto");
    let result = copy_iso_nosplit("p".into(), 1 << 30, "s".into(), true);
    let result = finish_result(result, &plan, true);
    assert!(result.warnings.is_empty());
    assert_eq!(result.total_size, 1 << 30);
}

// ---------------------------------------------------------------- defragmenting

fn check(contiguous: bool) -> Result<ContiguityResult, FsError> {
    Ok(ContiguityResult { file: "ul.x".into(), contiguous, extents: 3, size: 42 })
}

#[test]
fn only_fragmented_chunks_are_rewritten() {
    assert_eq!(fragmented_size("ul.x", true, &check(false)), Some(42));
    assert_eq!(fragmented_size("ul.x", true, &check(true)), None);
    assert_eq!(fragmented_size("ul.x", false, &check(false)), None);
    assert_eq!(fragmented_size("ul.cfg", true, &check(false)), None);
    assert_eq!(fragmented_size("x.iso", true, &check(false)), None);
    assert_eq!(fragmented_size("ul.x", true, &Err(FsError::UnsupportedOs)), None);
    assert!(is_rewritable("ul.x", true));
    assert!(!is_rewritable("ul.cfg", true));
    assert!(!is_rewritable("ul.x", false));
    assert!(!is_rewritable("x.iso", true));
    assert_eq!(temp_name("ul.x"), "ps2bt_ul.x.tmp");
}

fn run_defrag(events: Vec<DefragEvent>) -> (Vec<String>, FileOutcome) {
    let mut steps = vec![];
    let mut step = DefragStep::CopyToTemp;
    let mut events = events.into_iter();
    loop {
        let text = format!("{:?}", step);
        steps.push(text.split('(').next().unwrap().to_string());
        match step {
            DefragStep::Finished(outcome) => return (steps, outcome),
            _ => step = advance(step, events.next().unwrap(), "ul.x", 42, "/tmp/copy"),
        }
    }
}

#[test]
fn a_file_is_rewritten_in_steps() {
    let (steps, outcome) = run_defrag(vec![
        DefragEvent::Done,
        DefragEvent::TempSize(42),
        DefragEvent::Done,
        DefragEvent::Done,
        DefragEvent::Failed("ignored".into()),
    ]);
    assert_eq!(
        steps,
        ["CopyToTemp", "StatTemp", "DeleteOriginal", "WriteBack", "RemoveTemp", "Finished"]
    );
    assert!(matches!(outcome, FileOutcome::Moved));
}

#[test]
fn a_failing_rewrite_never_loses_the_data() {
    let reason = |outcome| match outcome {
        FileOutcome::Skipped(e) => e,
        FileOutcome::Moved => panic!("it failed"),
    };
    let (steps, outcome) = run_defrag(vec![DefragEvent::Failed("full".into())]);
    assert_eq!(steps, ["CopyToTemp", "Finished"]);
    assert_eq!(reason(outcome), "ul.x: copy to temp failed: full");
    let (steps, outcome) =
        run_defrag(vec![DefragEvent::Done, DefragEvent::TempSize(41), DefragEvent::Done]);
    assert_eq!(steps, ["CopyToTemp", "StatTemp", "RemoveTemp", "Finished"]);
    assert_eq!(reason(outcome), "ul.x: temp copy size mismatch (41 vs 42)");
    let (steps, outcome) = run_defrag(vec![
        DefragEvent::Done,
        DefragEvent::TempSize(42),
        DefragEvent::Failed("locked".into()),
        DefragEvent::Done,
    ]);
    assert_eq!(steps[3], "RemoveTemp");
    assert_eq!(reason(outcome), "ul.x: delete original failed: locked");
    let (steps, outcome) = run_defrag(vec![
        DefragEvent::Done,
        DefragEvent::TempSize(42),
        DefragEvent::Done,
        DefragEvent::Failed("full".into()),
    ]);
    assert!(!steps.contains(&"RemoveTemp".to_string()));
    assert_eq!(reason(outcome), "ul.x: write-back failed: full — recovery copy at /tmp/copy");
}

#[test]
fn outcomes_are_counted() {
    let mut result = DefragResult::new();
    result.record(FileOutcome::Moved, 42);
    result.record(FileOutcome::Skipped("why".into()), 7);
    result.record(FileOutcome::Moved, 8);
    assert_eq!((result.defragged, result.skipped, result.bytes_moved), (2, 1, 50));
    assert_eq!(result.errors, ["why"]);
}

// ---------------------------------------------------------------- restoring a folder

fn folder() -> Vec<FolderEntry> {
    let sub = |name: &str, kind| SubEntry { name: name.into(), kind };
    vec![
        FolderEntry { name: "ul.a".into(), kind: SourceKind::File(5), children: None },
        FolderEntry {
            name: "DVD".into(),
            kind: SourceKind::Directory,
            children: Some(vec![
                sub("big.iso", SourceKind::File(50)),
                sub("deep", SourceKind::Directory),
                sub("pipe", SourceKind::Other),
            ]),
        },
        FolderEntry { name: "locked".into(), kind: SourceKind::Directory, children: None },
        FolderEntry {
            name: "CD".into(),
            kind: SourceKind::Directory,
            children: Some(vec![sub("small.iso", SourceKind::File(5))]),
        },
        FolderEntry { name: "socket".into(), kind: SourceKind::Other, children: None },
    ]
}

#[test]
fn a_folder_is_scanned_one_level_deep() {
    let (files, found, skipped) = collect_source_files(&folder());
    let names: Vec<_> = files.iter().map(|f| (f.name.as_str(), f.subdir.as_deref())).collect();
    assert_eq!(names, [("ul.a", None), ("big.iso", Some("DVD")), ("small.iso", Some("CD"))]);
    assert_eq!(found, ["CD", "DVD"]);
    assert_eq!(skipped, ["DVD"]);
}

#[test]
fn a_scan_lists_the_largest_first() {
    assert!(can_scan(&folder()));
    let scan = scan_source_folder(&folder());
    let names: Vec<_> = scan.files.iter().map(|f| f.name.as_str()).collect();
    assert_eq!(names, ["big.iso", "ul.a", "small.iso"]);
    assert_eq!(scan.total_bytes, 60);
    assert_eq!((scan.subdirs_found.len(), scan.subdirs_skipped.len()), (2, 1));
    let huge = |n| FolderEntry { name: "f".into(), kind: SourceKind::File(n), children: None };
    assert!(!can_scan(&[huge(u64::MAX), huge(1)]));
}

#[test]
fn a_folder_is_copied() {
    let mut run = copy_folder_ordered(&folder());
    assert_eq!(run.next_file().unwrap().name, "big.iso");
    assert_eq!(run.progress_base(), (1, 3, 0, 60));
    run.file_done(FileEvent::NoDirectory("read-only".into()));
    assert_eq!(run.progress_base(), (2, 3, 50, 60));
    run.file_done(FileEvent::AlreadyThere);
    assert_eq!(run.next_file().unwrap().name, "small.iso");
    run.file_done(FileEvent::Copied(4));
    assert!(run.next_file().is_none());
    let result = run.finish();
    assert_eq!((result.copied, result.skipped, result.total_bytes), (1, 1, 60));
    assert_eq!(result.errors, ["Cannot create DVD/: read-only"]);
}

type Place = (Option<String>, String);

fn copy_onto(device: &mut Vec<(Place, u64)>) -> (usize, usize, Vec<String>) {
    let mut run = copy_folder_ordered(&folder());
    while let Some(file) = run.next_file() {
        let place = (file.subdir.clone(), file.name.clone());
        let there = device.iter().find(|(p, _)| *p == place).map(|(_, size)| *size);
        run.file_done(if is_already_there(&file, there) {
            FileEvent::AlreadyThere
        } else {
            device.retain(|(p, _)| *p != place);
            device.push((place, file.size));
            FileEvent::Copied(file.size)
        });
    }
    let result = run.finish();
    (result.copied, result.skipped, result.errors)
}

#[test]
fn all_files_arrive() {
    let mut device = vec![((None, "ul.a".to_string()), 4), ((None, "other".to_string()), 9)];
    assert_eq!(copy_onto(&mut device), (3, 0, vec![]));
    device.sort();
    let place = |dir: Option<&str>, name: &str| (dir.map(str::to_string), name.to_string());
    assert_eq!(
        device,
        [
            (place(None, "other"), 9),
            (place(None, "ul.a"), 5),
            (place(Some("CD"), "small.iso"), 5),
            (place(Some("DVD"), "big.iso"), 50),
        ]
    );
}

#[test]
fn a_second_run_skips_all() {
    let mut device = vec![((None, "ul.a".to_string()), 5)];
    assert_eq!(copy_onto(&mut device), (2, 1, vec![]));
    let before = device.clone();
    assert_eq!(copy_onto(&mut device), (0, 3, vec![]));
    assert_eq!(device, before);
}

#[test]
fn a_failed_file_does_not_stop_the_rest() {
    let mut run = copy_folder_ordered(&folder());
    run.file_done(FileEvent::Failed("big.iso: open failed: gone".into()));
    assert_eq!(run.next_file().unwrap().name, "ul.a");
    run.file_done(FileEvent::Copied(5));
    run.file_done(FileEvent::Copied(5));
    let result = run.finish();
    assert_eq!((result.copied, result.skipped), (2, 0));
    assert_eq!(result.errors, ["big.iso: open failed: gone"]);
}

#[test]
fn a_file_of_the_right_size_is_left() {
    let file = SourceFile { name: "a".into(), subdir: None, size: 5 };
    assert!(is_already_there(&file, Some(5)));
    assert!(!is_already_there(&file, Some(4)));
    assert!(!is_already_there(&file, None));
}

#[test]
fn progress_is_told_as_it_grows() {
    let file = SourceFile { name: "a".into(), subdir: None, size: 1000 };
    let mut stream = CopyStream::start(&file, (2, 4, 1000, 100_000));
    let start = stream.starting();
    assert_eq!((start.file_pct, start.total_pct, start.file_index, start.total_files), (0, 1, 2, 4));
    let first = stream.block(100).unwrap();
    assert_eq!((first.file_pct, first.total_pct), (10, 1));
    assert!(stream.block(100).is_none());
    let last = stream.block(800).unwrap();
    assert_eq!((last.file_pct, last.total_pct), (100, 2));
    let more = stream.block(500).unwrap();
    assert_eq!(more.file_pct, 100);
    assert!(CopyStream::start(&file, (1, 1, 255, 100)).has_start());
    assert_eq!(CopyStream::start(&file, (1, 1, 255, 100)).starting().total_pct, 255);
    assert!(!CopyStream::start(&file, (1, 1, 256, 100)).has_start());
    assert!(!CopyStream::start(&file, (1, 1, u64::MAX, u64::MAX)).has_start());
    assert!(CopyStream::start(&file, (1, 1, u64::MAX, 0)).has_start());
    let empty = SourceFile { name: "e".into(), subdir: None, size: 0 };
    let mut stream = CopyStream::start(&empty, (1, 1, 0, 0));
    assert_eq!(stream.starting().total_pct, 0);
    let p = stream.block(1).unwrap();
    assert_eq!((p.file_pct, p.total_pct), (100, 100));
}

#[test]
fn copy_errors_in_words() {
    assert_eq!(copy_error("f", CopyStage::Open, "e"), "f: open failed: e");
    assert_eq!(copy_error("f", CopyStage::Create, "e"), "f: create dest failed: e");
    assert_eq!(copy_error("f", CopyStage::Read, "e"), "f: read failed: e");
    assert_eq!(copy_error("f", CopyStage::Write, "e"), "f: write failed: e");
    assert_eq!(copy_error("f", CopyStage::Flush, "e"), "f: flush failed: e");
}
