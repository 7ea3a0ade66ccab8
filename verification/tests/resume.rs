use avet::resume::{
    load_json_or_default, source_id, stable_hash, temp_dir_name, temp_dir_name_for, CrfCache, DoneFile,
    SceneEntry, TempDir,
};

#[test]
fn a_long_name_still_gets_a_temp_dir_of_its_own() {
    assert_eq!(temp_dir_name("Film"), ".avet_Film");
    let long = "ü".repeat(125) + "x";
    let a = temp_dir_name(&long);
    let b = temp_dir_name(&("ü".repeat(125) + "y"));
    assert!(a.len() <= 255 && b.len() <= 255, "{} and {} bytes", a.len(), b.len());
    assert_ne!(a, b);
    assert_eq!(a, temp_dir_name(&long));

    let temp = TempDir::for_video("/out", &long);
    assert_eq!(temp.path, format!("/out/{a}"));
}

#[test]
fn a_missing_or_empty_state_file_reads_as_the_default() {
    assert!(load_json_or_default(None));
    // What a crash between create and flush leaves behind.
    assert!(load_json_or_default(Some("")));
    assert!(load_json_or_default(Some(" \n")));
    // Garbage is a different matter and still has to be reported.
    assert!(!load_json_or_default(Some("{not json")));

    let done = DoneFile::load_or_create("/t/done.json", None);
    assert!(done.state.chunks.is_empty());
    assert_eq!(done.path, "/t/done.json");
}

#[test]
fn a_recorded_chunk_is_done_while_its_file_keeps_its_size() {
    let mut done = DoneFile::load_or_create("done.json", None);
    assert!(!done.is_done("00000", Some(77)));
    done.mark_done("00000", 240, 77);
    done.mark_done("00001", 10, 5);
    assert!(done.is_done("00000", Some(77)));
    assert!(done.is_done("00001", Some(5)));
    assert!(!done.is_done("00000", Some(76)));
    assert!(!done.is_done("00000", None));
    assert!(!done.is_done("00002", Some(5)));

    done.mark_done("00000", 240, 80);
    assert!(done.is_done("00000", Some(80)));
    assert_eq!(done.state.chunks.len(), 2);
}

#[test]
fn a_solved_rate_is_found_again() {
    let mut cache = CrfCache::load_or_create("tq.json", None);
    assert_eq!(cache.get("00003"), None);
    cache.insert("00003", 120);
    cache.insert("00004", 90);
    cache.insert("00003", 121);
    assert_eq!(cache.get("00003"), Some(121));
    assert_eq!(cache.get("00004"), Some(90));
}

#[test]
fn chunk_keys_differ_and_are_padded() {
    let entry = |index| SceneEntry { index, start_frame: 0, end_frame: 9 };
    assert_eq!(entry(0).padded_index(), "00001");
    assert_eq!(entry(12).padded_index(), "00013");
    assert_eq!(entry(123455).padded_index(), "123456");
    assert_eq!(entry(0).frame_count(), 10);
}

#[test]
fn every_file_of_a_video_lies_in_its_temp_dir() {
    let t = TempDir::for_video("/out", "Film");
    assert_eq!(t.path, "/out/.avet_Film");
    assert_eq!(t.scenes_path, "/out/.avet_Film/scenes.json");
    assert_eq!(t.done_path, "/out/.avet_Film/done.json");
    assert_eq!(t.chunk_path("00007"), "/out/.avet_Film/chunks/00007.ivf");
    assert_eq!(t.failed_path, "/out/.avet_Film/.failed");
}

#[test]
fn a_temp_dir_of_another_source_is_discarded() {
    let t = TempDir::for_video("/out", "Film");
    assert!(!t.claim_source(None, "/in/Film.mkv 1 2"));
    assert!(!t.claim_source(Some("/in/Film.mkv 1 2"), "/in/Film.mkv 1 2"));
    assert!(t.claim_source(Some("/other/Film.mkv 1 2"), "/in/Film.mkv 1 2"));
    assert_eq!(t.recorded_source(Some("/in/Film.mkv 1 2")).as_deref(), Some("/in/Film.mkv 1 2"));
    assert_eq!(t.recorded_source(None), None);
}

#[test]
fn names_with_other_hashes_differ() {
    let long = "x".repeat(300);
    assert_ne!(temp_dir_name_for(&long, 1), temp_dir_name_for(&long, 2));
    assert_eq!(temp_dir_name(&long), temp_dir_name_for(&long, stable_hash(&long)));
}

#[test]
fn a_source_is_told_by_its_path_its_size_and_its_time() {
    assert_eq!(source_id("/in/Film.mkv", 5, Some(7)), "/in/Film.mkv 5 7");
    assert_eq!(source_id("/in/Film.mkv", 5, None), "/in/Film.mkv 5 -");
    let id = source_id("/in/Film 5", 12, Some(7));
    for other in [
        source_id("/in/Film", 512, Some(7)),
        source_id("/in/Film 5", 1, Some(27)),
        source_id("/in/Film 5", 12, None),
        source_id("/in/Film 5", 13, Some(7)),
    ] {
        assert_ne!(id, other);
    }

    let t = TempDir::for_video("/out", "Film");
    assert!(t.source_unchanged(Some(&format!("{id}\n")), &id));
    assert!(!t.source_unchanged(Some(&id), &source_id("/in/Film 5", 20, Some(8))));
    assert!(!t.source_unchanged(None, &id));
}

#[test]
fn chunk_keys_sort_as_the_chunks_do() {
    let key = |index| SceneEntry { index, start_frame: 0, end_frame: 0 }.padded_index();
    let indices = [0, 8, 9, 98, 99, 999, 9_999, 99_998];
    let keys: Vec<String> = indices.iter().map(|&i| key(i)).collect();
    assert!(keys.iter().all(|k| k.len() == 5), "{keys:?}");
    assert!(keys.windows(2).all(|w| w[0] < w[1]), "{keys:?}");
}
