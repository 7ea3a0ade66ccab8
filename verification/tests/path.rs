use avet::path::{join_path, name_of, path_parts, same_path};
use avet::scanner::{name_collides, stem_of, Job, JobFacts};
use std::path::Path;

const PATHS: [&str; 24] = [
    "", "/", ".", "..", "./", "./a", "a", "a/", "a//", "a/.", "a/./", "a/..", "/a", "//a", "/.",
    "/..", "a/b", "a//b", "a/./b", "./a/b", "/a/b.c/", ".hid", "x/.hid.mkv", "f.2019.mkv",
];

#[test]
fn the_last_part_of_a_path_names_its_file() {
    for p in PATHS {
        let name: Option<String> = name_of(p).map(|n| n.into_iter().collect());
        assert_eq!(name.as_deref(), Path::new(p).file_name().map(|n| n.to_str().unwrap()), "{p}");
        let stem = stem_of(p);
        assert_eq!(stem.as_deref(), Path::new(p).file_stem().map(|n| n.to_str().unwrap()), "{p}");
    }
    assert_eq!(stem_of("a/").unwrap(), "a");
    assert_eq!(stem_of("in/film.mkv/.").unwrap(), "film");
    assert_eq!(stem_of("a/.."), None);
}

#[test]
fn a_job_without_a_file_name_is_a_video() {
    let job = |source: &str| Job {
        encode_toml: "/in/p/encode.toml".into(),
        source_file: source.into(),
        rel_dir: String::new(),
    };
    assert_eq!(job("a/").stem(), "a");
    for nameless in ["", "/", ".", "..", "a/.."] {
        assert_eq!(job(nameless).stem(), "video");
    }
}

#[test]
fn a_path_below_a_directory_is_joined_to_it_unless_it_is_absolute() {
    for dir in PATHS {
        for name in PATHS {
            assert_eq!(join_path(dir, name), Path::new(dir).join(name).to_str().unwrap());
        }
    }
    assert_eq!(join_path("/out", "/abs"), "/abs");
    assert_eq!(join_path("/out", "a"), "/out/a");
    let job = Job {
        encode_toml: "/in/p/encode.toml".into(),
        source_file: "/in/p/film.mkv".into(),
        rel_dir: "/abs".into(),
    };
    assert_eq!(job.output_dir("/out"), "/abs");
}

#[test]
fn paths_are_the_same_when_their_parts_are() {
    for a in PATHS {
        for b in PATHS {
            assert_eq!(same_path(a, b), Path::new(a) == Path::new(b), "{a} and {b}");
        }
    }
    let parts: Vec<String> =
        path_parts("/a/./b//").into_iter().map(|p| p.into_iter().collect()).collect();
    assert_eq!(parts, ["/", "a", "b"]);
}

#[test]
fn a_slash_too_many_does_not_hide_a_name_clash() {
    let job = |rel: &str, name: &str| Job {
        encode_toml: "/in/p/encode.toml".into(),
        source_file: format!("/in/p/{rel}/{name}"),
        rel_dir: rel.into(),
    };
    let fact = || JobFacts { output: None, marked: false, recorded: None, source_id: String::new() };
    let jobs = [job("a/b", "film.mkv"), job("a//b", "film.mp4"), job("a", "film.mkv")];
    let facts = [fact(), fact(), fact()];
    assert!(name_collides(&jobs, &facts, 0));
    assert!(name_collides(&jobs, &facts, 1));
    assert!(!name_collides(&jobs, &facts, 2));
}
