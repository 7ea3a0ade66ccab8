use avet::resume::source_id;
use avet::scanner::{
    failed_marker, is_hidden, is_profile_name, is_video, name_collides, output_exists,
    select_jobs, sort_files, sort_profiles, stem_of, Job, JobFacts, VideoFile,
};
use std::path::Path;

fn job(profile: &str, rel_dir: &str, name: &str) -> Job {
    let folder = if rel_dir.is_empty() {
        format!("/in/{profile}")
    } else {
        format!("/in/{profile}/{rel_dir}")
    };
    Job {
        encode_toml: format!("/in/{profile}/encode.toml"),
        source_file: format!("{folder}/{name}"),
        rel_dir: rel_dir.into(),
    }
}

/// Nothing on disk yet.
fn fresh(jobs: &[Job]) -> Vec<JobFacts> {
    jobs.iter()
        .map(|j| JobFacts {
            output: None,
            marked: false,
            recorded: None,
            source_id: source_id(&j.source_file, 4, Some(7)),
        })
        .collect()
}

fn stems(jobs: &[Job], picked: &[usize]) -> Vec<String> {
    picked.iter().map(|&i| jobs[i].stem()).collect()
}

#[test]
fn scan_finds_profile_with_video() {
    let jobs = [job("test-profile", "", "film.mkv")];
    assert_eq!(select_jobs(&jobs, &fresh(&jobs)), [0]);
    assert!(is_profile_name("test-profile"));
    assert!(is_video("film.mkv"));
    assert!(!is_video("encode.toml"));
}

#[test]
fn names_with_a_line_break_are_picked_up() {
    let jobs = [job("p", "Show\nPart 2", "film\r\n.mkv")];
    assert!(is_video("film\r\n.mkv"));
    assert_eq!(select_jobs(&jobs, &fresh(&jobs)), [0]);
    assert_eq!(jobs[0].stem(), "film\r\n");
    assert_eq!(jobs[0].output_dir("/out"), "/out/Show\nPart 2");
}

#[test]
fn scan_skips_processed_dir() {
    assert!(!is_profile_name("processed"));
}

#[test]
fn scan_skips_existing_output() {
    let jobs = [job("p", "", "film.mkv")];
    let mut facts = fresh(&jobs);
    facts[0].output = Some(4);
    assert!(select_jobs(&jobs, &facts).is_empty());
}

#[test]
fn an_empty_output_file_is_a_leftover_not_a_finished_encode() {
    let jobs = [job("p", "", "film.mkv")];
    let mut facts = fresh(&jobs);
    facts[0].output = Some(0);
    assert_eq!(select_jobs(&jobs, &facts).len(), 1);
    assert!(!output_exists(Some(0)) && !output_exists(None) && output_exists(Some(1)));
}

#[test]
fn scan_drops_files_that_share_a_stem() {
    let jobs = [job("a", "", "film.mkv"), job("b", "", "film.mkv")];
    assert!(select_jobs(&jobs, &fresh(&jobs)).is_empty());
    assert!(name_collides(&jobs, &fresh(&jobs), 0));
}

#[test]
fn scan_drops_same_stem_with_different_extensions() {
    let jobs = [job("p", "", "film.mkv"), job("p", "", "film.mp4")];
    assert!(select_jobs(&jobs, &fresh(&jobs)).is_empty());
}

#[test]
fn scan_keeps_distinct_stems_next_to_a_collision() {
    let jobs =
        [job("a", "", "film.mkv"), job("a", "", "other.mkv"), job("b", "", "film.mkv")];
    let picked = select_jobs(&jobs, &fresh(&jobs));
    assert_eq!(stems(&jobs, &picked), ["other"]);
}

#[test]
fn a_folder_inside_a_profile_is_kept_as_the_job_folder() {
    let jobs = [
        job("p", "", "film.mkv"),
        job("p", "Show/Season 1", "Episode 01.mkv"),
        job("p", "Show/Season 2", "Episode 01.mkv"),
    ];
    let mut facts = fresh(&jobs);
    assert_eq!(select_jobs(&jobs, &facts), [0, 1, 2]);
    assert_eq!(Path::new(&jobs[0].output_dir("/out")), Path::new("/out"));
    assert_eq!(jobs[1].output_dir("/out"), "/out/Show/Season 1");
    assert!(is_hidden(".hidden"));

    facts[1].output = Some(4);
    assert_eq!(select_jobs(&jobs, &facts).len(), 2);
}

#[test]
fn a_macos_resource_fork_is_not_a_job() {
    assert!(is_hidden("._film.mkv"));
    assert!(!is_hidden("film.mkv"));
}

#[test]
fn a_marker_on_one_half_of_a_name_clash_still_stops_the_other() {
    let jobs = [job("a", "", "film.mkv"), job("b", "", "film.mkv")];
    let mut facts = fresh(&jobs);
    for f in &mut facts {
        f.marked = true;
        f.recorded = Some(source_id("/in/a/film.mkv", 4, Some(7)));
    }
    // Running b would discard the temp dir the marker of a lives in.
    assert!(select_jobs(&jobs, &facts).is_empty());
}

#[test]
fn failed_marker_only_blocks_the_file_it_was_written_for() {
    let jobs = [job("p", "", "film.mkv")];
    let mut facts = fresh(&jobs);
    facts[0].marked = true;

    // Marker written for this exact file: blocked.
    facts[0].recorded = Some(source_id("/in/p/film.mkv", 4, Some(7)));
    assert!(failed_marker(&facts[0]));
    assert!(select_jobs(&jobs, &facts).is_empty());

    // Marker left over from a different file that had the same name: not blocked.
    facts[0].recorded = Some("/somewhere/else/film.mkv".into());
    assert_eq!(select_jobs(&jobs, &facts).len(), 1);
}

#[test]
fn files_come_in_the_order_of_their_folders_and_names() {
    let file = |rel: &str, name: &str| VideoFile { rel: rel.into(), name: name.into() };
    let files = [file("b", "1.mkv"), file("", "z.mkv"), file("b", "0.mkv"), file("a", "9.mkv")];
    assert_eq!(sort_files(&files), [1, 3, 2, 0]);
}

#[test]
fn a_stem_is_the_name_without_its_last_extension() {
    assert_eq!(stem_of("/in/p/Film.2019.mkv").unwrap(), "Film.2019");
    assert_eq!(stem_of("Film").unwrap(), "Film");
    assert_eq!(stem_of(".mkv").unwrap(), ".mkv");
    assert!(is_video("FILM.MKV"));
}

#[test]
fn profiles_are_taken_in_the_order_of_their_names() {
    let names: Vec<String> = ["tv", "anime", "Film", "tv2"].map(String::from).into();
    assert_eq!(sort_profiles(&names), [2, 1, 0, 3]);
}
