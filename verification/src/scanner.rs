//! Which files of the input become jobs.
use crate::audio::{lemma_pair_order, pair_less, Words};
use crate::hevc::indices;
use crate::path::{file_name, join_path, joined_path, name_of, parts, same_path};
use crate::text::{
    from_chars, is_less, lemma_less_behind, less, part, pieces, same, to_chars, Separator,
};
use vstd::prelude::*;
use vstd::string::*;

verus! {

// ---------------------------------------------------------------------------
// Names
// ---------------------------------------------------------------------------
/// Where the last `c` stands in text, or -1.
pub open spec fn last_at(s: Seq<char>, c: char) -> int
    decreases s.len(),
{
    if s.len() == 0 {
        -1
    } else if s.last() == c {
        s.len() - 1
    } else {
        last_at(s.drop_last(), c)
    }
}

/// A file name without its extension. A dot at the start makes no extension.
pub open spec fn name_stem(name: Seq<char>) -> Seq<char> {
    let dot = last_at(name, '.');
    if dot <= 0 {
        name
    } else {
        name.subrange(0, dot)
    }
}

/// The extension of a file name, without its dot.
pub open spec fn name_extension(name: Seq<char>) -> Option<Seq<char>> {
    let dot = last_at(name, '.');
    if dot <= 0 {
        None
    } else {
        Some(name.subrange(dot + 1, name.len() as int))
    }
}

proof fn lemma_last_at(s: Seq<char>, c: char)
    ensures
        -1 <= last_at(s, c) < s.len(),
        last_at(s, c) >= 0 ==> s[last_at(s, c)] == c,
        forall|i: int| last_at(s, c) < i < s.len() ==> s[i] != c,
    decreases s.len(),
{
    if s.len() > 0 && s.last() != c {
        lemma_last_at(s.drop_last(), c);
        assert forall|i: int| last_at(s, c) < i < s.len() implies s[i] != c by {
            if i < s.len() - 1 {
                assert(s.drop_last()[i] != c);
            }
        }
    }
}

fn find_last(s: &[char], c: char) -> (r: Option<usize>)
    ensures
        match r {
            Some(i) => last_at(s@, c) == i && i < s@.len(),
            None => last_at(s@, c) == -1,
        },
{
    let mut i: usize = s.len();
    assert(s@.subrange(0, i as int) =~= s@);
    while i > 0
        invariant
            i <= s@.len(),
            last_at(s@, c) == last_at(s@.subrange(0, i as int), c),
        decreases i,
    {
        assert(s@.subrange(0, i as int).drop_last() =~= s@.subrange(0, i - 1));
        if s[i - 1] == c {
            return Some(i - 1);
        }
        i = i - 1;
    }
    None
}

/// The stem of the file at a path, where that names one.
pub open spec fn file_stem(path: Seq<char>) -> Option<Seq<char>> {
    match file_name(path) {
        Some(name) => Some(name_stem(name)),
        None => None,
    }
}

/// The stem of the file at a path.
pub fn stem_of(path: &str) -> (s: Option<String>)
    ensures
        match s {
            Some(stem) => file_stem(path@) == Some(stem@),
            None => file_stem(path@) is None,
        },
{
    let name = match name_of(path) {
        Some(name) => name,
        None => {
            return None;
        },
    };
    match find_last(name.as_slice(), '.') {
        Some(dot) => {
            if dot == 0 {
                Some(from_chars(name.as_slice()))
            } else {
                let stem = part(name.as_slice(), 0, dot);
                Some(from_chars(stem.as_slice()))
            }
        },
        None => Some(from_chars(name.as_slice())),
    }
}

/// A letter in lower case, as far as that is a letter of ASCII: the Kelvin sign is the one
/// character besides the capitals that becomes one.
pub open spec fn lower_letter(c: char) -> char {
    if 'A' <= c <= 'Z' {
        (c as u32 + 32) as char
    } else if c as u32 == 0x212A {
        'k'
    } else {
        c
    }
}

pub open spec fn lower_letters(s: Seq<char>) -> Seq<char> {
    Seq::new(s.len(), |i: int| lower_letter(s[i]))
}

/// The extensions of videos.
pub open spec fn video_extension(ext: Seq<char>) -> bool {
    ext == "mkv"@ || ext == "mp4"@ || ext == "mov"@ || ext == "avi"@ || ext == "ts"@ || ext
        == "m2ts"@ || ext == "flv"@ || ext == "webm"@ || ext == "m4v"@
}

pub open spec fn hidden(name: Seq<char>) -> bool {
    name.len() > 0 && name[0] == '.'
}

/// Whether a file is a video by its name, in whichever case. Hidden files are not: macOS
/// writes `._Name.mkv` beside `Name.mkv` for its own data.
pub open spec fn video_name(name: Seq<char>) -> bool {
    !hidden(name) && name_extension(name) is Some && video_extension(
        lower_letters(name_extension(name)->0),
    )
}

fn to_lower(s: &[char]) -> (v: Vec<char>)
    ensures
        v@ == lower_letters(s@),
{
    let mut v: Vec<char> = Vec::new();
    let mut i: usize = 0;
    while i < s.len()
        invariant
            i <= s@.len(),
            v@.len() == i,
            forall|k: int| 0 <= k < i ==> #[trigger] v@[k] == lower_letter(s@[k]),
        decreases s@.len() - i,
    {
        let c = s[i];
        let l: char = if 'A' <= c && c <= 'Z' {
            (c as u8 + 32) as char
        } else if c as u32 == 0x212A {
            'k'
        } else {
            c
        };
        v.push(l);
        i = i + 1;
    }
    assert(v@ =~= lower_letters(s@));
    v
}

/// Whether a folder or file is hidden.
pub fn is_hidden(name: &str) -> (r: bool)
    ensures
        r == hidden(name@),
{
    let chars = to_chars(name);
    chars.len() > 0 && chars[0] == '.'
}

/// Whether a file is a video.
pub fn is_video(name: &str) -> (r: bool)
    ensures
        r == video_name(name@),
{
    if is_hidden(name) {
        return false;
    }
    let chars = to_chars(name);
    let len: usize = chars.len();
    let dot: usize = match find_last(chars.as_slice(), '.') {
        Some(dot) => dot,
        None => {
            return false;
        },
    };
    if dot == 0 {
        return false;
    }
    let ext_chars = to_lower(part(chars.as_slice(), dot + 1, len).as_slice());
    let ext = from_chars(ext_chars.as_slice());
    let e = ext.as_str();
    same(e, "mkv") || same(e, "mp4") || same(e, "mov") || same(e, "avi") || same(e, "ts") || same(
        e,
        "m2ts",
    ) || same(e, "flv") || same(e, "webm") || same(e, "m4v")
}

/// Whether a folder of the input is a profile by its name: encoded sources are kept in one
/// that is not.
pub fn is_profile_name(name: &str) -> (r: bool)
    ensures
        r == (name@ != "processed"@),
{
    !same(name, "processed")
}

// ---------------------------------------------------------------------------
// Order
// ---------------------------------------------------------------------------
/// A file of a profile: the folder it lies in, from the profile on, and its name.
#[derive(Debug)]
pub struct VideoFile {
    pub rel: String,
    pub name: String,
}

/// A folder's parts are compared one by one, so what divides them comes before everything.
pub open spec fn folder_key(rel: Seq<char>) -> Seq<char> {
    Seq::new(
        rel.len(),
        |i: int|
            if rel[i] == '/' {
                '\0'
            } else {
                rel[i]
            },
    )
}

/// What a file is ordered by: its folder, then its name.
pub open spec fn file_keys(files: Seq<VideoFile>) -> Seq<Words> {
    Seq::new(files.len(), |i: int| (folder_key(files[i].rel@), files[i].name@))
}

/// `x` put in front of the files at the end that come behind it.
pub open spec fn placed_file(order: Seq<int>, keys: Seq<Words>, x: int) -> Seq<int>
    decreases order.len(),
{
    if order.len() > 0 && pair_less(keys[x], keys[order.last()]) {
        placed_file(order.drop_last(), keys, x).push(order.last())
    } else {
        order.push(x)
    }
}

/// The first `n` files in order.
pub open spec fn file_order(keys: Seq<Words>, n: nat) -> Seq<int>
    decreases n,
{
    if n == 0 {
        Seq::empty()
    } else {
        placed_file(file_order(keys, (n - 1) as nat), keys, n - 1)
    }
}

fn key_of(rel: &str) -> (s: String)
    ensures
        s@ == folder_key(rel@),
{
    let chars = to_chars(rel);
    let mut v: Vec<char> = Vec::new();
    let mut i: usize = 0;
    while i < chars.len()
        invariant
            i <= chars@.len(),
            chars@ == rel@,
            v@.len() == i,
            forall|k: int| 0 <= k < i ==> #[trigger] v@[k] == folder_key(rel@)[k],
        decreases chars@.len() - i,
    {
        let c = chars[i];
        v.push(
            if c == '/' {
                '\0'
            } else {
                c
            },
        );
        i = i + 1;
    }
    assert(v@ =~= folder_key(rel@));
    from_chars(v.as_slice())
}

fn file_first(a: &VideoFile, b: &VideoFile) -> (r: bool)
    ensures
        r == pair_less((folder_key(a.rel@), a.name@), (folder_key(b.rel@), b.name@)),
{
    let x = key_of(a.rel.as_str());
    let y = key_of(b.rel.as_str());
    is_less(x.as_str(), y.as_str()) || (same(x.as_str(), y.as_str()) && is_less(
        a.name.as_str(),
        b.name.as_str(),
    ))
}

fn place_file(order: &mut Vec<usize>, files: &[VideoFile], x: usize)
    requires
        x < files@.len(),
        forall|i: int| 0 <= i < old(order)@.len() ==> #[trigger] old(order)@[i] < files@.len(),
    ensures
        indices(final(order)@) == placed_file(
            indices(old(order)@),
            file_keys(files@),
            x as int,
        ),
        forall|i: int| 0 <= i < final(order)@.len() ==> #[trigger] final(order)@[i] < files@.len(),
{
    let ghost keys = file_keys(files@);
    let ghost start = indices(order@);
    let ghost from = order@;
    let mut at: usize = order.len();
    proof {
        assert(start.subrange(0, at as int) =~= start);
        assert(placed_file(start, keys, x as int) =~= placed_file(
            start.subrange(0, at as int),
            keys,
            x as int,
        ) + start.subrange(at as int, start.len() as int));
    }
    while at > 0 && file_first(&files[x], &files[order[at - 1]])
        invariant
            at <= order@.len(),
            x < files@.len(),
            keys == file_keys(files@),
            order@ == from,
            start == indices(from),
            forall|i: int| 0 <= i < order@.len() ==> #[trigger] order@[i] < files@.len(),
            placed_file(start, keys, x as int) == placed_file(
                start.subrange(0, at as int),
                keys,
                x as int,
            ) + start.subrange(at as int, start.len() as int),
        decreases at,
    {
        proof {
            let front = start.subrange(0, at as int);
            assert(front.last() == start[at - 1]);
            assert(front.drop_last() =~= start.subrange(0, at - 1));
            assert(placed_file(front, keys, x as int) + start.subrange(
                at as int,
                start.len() as int,
            ) =~= placed_file(start.subrange(0, at - 1), keys, x as int) + start.subrange(
                at - 1,
                start.len() as int,
            ));
        }
        at = at - 1;
    }
    proof {
        let front = start.subrange(0, at as int);
        if at > 0 {
            assert(front.last() == start[at - 1]);
        }
        assert(placed_file(front, keys, x as int) == front.push(x as int));
    }
    order.insert(at, x);
    assert(indices(order@) =~= start.subrange(0, at as int).push(x as int) + start.subrange(
        at as int,
        start.len() as int,
    ));
}

/// The files by folder and name.
pub fn sort_files(files: &[VideoFile]) -> (order: Vec<usize>)
    ensures
        indices(order@) == file_order(file_keys(files@), files@.len()),
        forall|i: int| 0 <= i < order@.len() ==> #[trigger] order@[i] < files@.len(),
{
    let mut order: Vec<usize> = Vec::new();
    let mut i: usize = 0;
    assert(indices(order@) =~= Seq::empty());
    while i < files.len()
        invariant
            i <= files@.len(),
            indices(order@) == file_order(file_keys(files@), i as nat),
            forall|k: int| 0 <= k < order@.len() ==> #[trigger] order@[k] < files@.len(),
        decreases files@.len() - i,
    {
        place_file(&mut order, files, i);
        i = i + 1;
    }
    order
}

/// What the folders of the input are ordered by: their names.
pub open spec fn name_keys(names: Seq<String>) -> Seq<Words> {
    Seq::new(names.len(), |i: int| (Seq::empty(), names[i]@))
}

/// The folders of the input by name, in the order that their profiles are taken in.
pub fn sort_profiles(names: &[String]) -> (order: Vec<usize>)
    ensures
        indices(order@) == file_order(name_keys(names@), names@.len()),
        forall|i: int| 0 <= i < order@.len() ==> #[trigger] order@[i] < names@.len(),
{
    let mut files: Vec<VideoFile> = Vec::new();
    let mut i: usize = 0;
    while i < names.len()
        invariant
            i <= names@.len(),
            files@.len() == i,
            forall|k: int|
                0 <= k < i ==> (#[trigger] files@[k]).rel@ == Seq::<char>::empty()
                    && files@[k].name@ == names@[k]@,
        decreases names@.len() - i,
    {
        files.push(VideoFile { rel: String::new(), name: names[i].clone() });
        i = i + 1;
    }
    proof {
        assert forall|k: int| 0 <= k < files@.len() implies file_keys(files@)[k] == #[trigger] name_keys(
            names@,
        )[k] by {
            assert(folder_key(files@[k].rel@) =~= Seq::empty());
        }
        assert(file_keys(files@) =~= name_keys(names@));
    }
    sort_files(files.as_slice())
}

/// None of these files comes before one in front of it.
pub open spec fn files_in_order(order: Seq<int>, keys: Seq<Words>) -> bool {
    forall|i: int, j: int|
        #![trigger order[i], order[j]]
        0 <= i < j < order.len() ==> !pair_less(keys[order[j]], keys[order[i]])
}

proof fn lemma_placed_file(order: Seq<int>, keys: Seq<Words>, x: int)
    requires
        0 <= x,
        files_in_order(order, keys),
        forall|i: int| 0 <= i < order.len() ==> 0 <= #[trigger] order[i] < x,
    ensures
        ({
            let out = placed_file(order, keys, x);
            &&& out.len() == order.len() + 1
            &&& files_in_order(out, keys)
            &&& forall|i: int| 0 <= i < out.len() ==> 0 <= #[trigger] out[i] <= x
            &&& forall|y: int| #[trigger] out.contains(y) <==> y == x || order.contains(y)
        }),
    decreases order.len(),
{
    let out = placed_file(order, keys, x);
    if order.len() > 0 && pair_less(keys[x], keys[order.last()]) {
        let front = order.drop_last();
        let last = order.last();
        assert forall|i: int, j: int|
            #![trigger front[i], front[j]]
            0 <= i < j < front.len() implies !pair_less(keys[front[j]], keys[front[i]]) by {
            assert(!pair_less(keys[order[j]], keys[order[i]]));
        }
        assert forall|i: int| 0 <= i < front.len() implies 0 <= #[trigger] front[i] < x by {
            assert(order[i] < x);
        }
        lemma_placed_file(front, keys, x);
        let before = placed_file(front, keys, x);
        assert forall|i: int, j: int|
            #![trigger out[i], out[j]]
            0 <= i < j < out.len() implies !pair_less(keys[out[j]], keys[out[i]]) by {
            if j == out.len() - 1 {
                assert(before.contains(before[i]));
                if before[i] == x {
                    lemma_pair_order(keys[x], keys[last], keys[x]);
                } else {
                    let k = choose|k: int| 0 <= k < front.len() && front[k] == before[i];
                    assert(!pair_less(keys[order[order.len() - 1]], keys[order[k]]));
                }
            } else {
                assert(!pair_less(keys[before[j]], keys[before[i]]));
            }
        }
        assert forall|y: int| #[trigger] out.contains(y) <==> y == x || order.contains(y) by {
            if out.contains(y) {
                let k = choose|k: int| 0 <= k < out.len() && out[k] == y;
                if k < before.len() {
                    assert(before.contains(y));
                    if y != x {
                        let m = choose|m: int| 0 <= m < front.len() && front[m] == y;
                        assert(order[m] == y);
                    }
                } else {
                    assert(order[order.len() - 1] == y);
                }
            }
            if y == x {
                assert(before.contains(x));
                let k = choose|k: int| 0 <= k < before.len() && before[k] == x;
                assert(out[k] == x);
            }
            if order.contains(y) {
                let k = choose|k: int| 0 <= k < order.len() && order[k] == y;
                if k < front.len() {
                    assert(front[k] == y);
                    assert(before.contains(y));
                    let m = choose|m: int| 0 <= m < before.len() && before[m] == y;
                    assert(out[m] == y);
                } else {
                    assert(out[out.len() - 1] == y);
                }
            }
        }
        assert forall|i: int| 0 <= i < out.len() implies 0 <= #[trigger] out[i] <= x by {
            if i < before.len() {
                assert(before[i] <= x);
            } else {
                assert(order[order.len() - 1] < x);
            }
        }
    } else {
        assert forall|i: int, j: int|
            #![trigger out[i], out[j]]
            0 <= i < j < out.len() implies !pair_less(keys[out[j]], keys[out[i]]) by {
            if j == out.len() - 1 {
                if i < order.len() - 1 {
                    assert(!pair_less(keys[order[order.len() - 1]], keys[order[i]]));
                    lemma_pair_order(keys[x], keys[order.last()], keys[order[i]]);
                }
            } else {
                assert(!pair_less(keys[order[j]], keys[order[i]]));
            }
        }
        assert forall|y: int| #[trigger] out.contains(y) <==> y == x || order.contains(y) by {
            if out.contains(y) {
                let k = choose|k: int| 0 <= k < out.len() && out[k] == y;
                if k < order.len() {
                    assert(order[k] == y);
                }
            }
            if y == x {
                assert(out[order.len() as int] == x);
            }
            if order.contains(y) {
                let k = choose|k: int| 0 <= k < order.len() && order[k] == y;
                assert(out[k] == y);
            }
        }
    }
}

/// Every file is taken exactly once, in the order of folder and name, and every profile in
/// the order of its name.
pub proof fn law_files_are_sorted(keys: Seq<Words>, n: nat)
    ensures
        file_order(keys, n).len() == n,
        files_in_order(file_order(keys, n), keys),
        forall|i: int| 0 <= i < n ==> 0 <= #[trigger] file_order(keys, n)[i] < n,
        forall|y: int| 0 <= y < n ==> #[trigger] file_order(keys, n).contains(y),
    decreases n,
{
    if n > 0 {
        law_files_are_sorted(keys, (n - 1) as nat);
        lemma_placed_file(file_order(keys, (n - 1) as nat), keys, n - 1);
        assert forall|y: int| 0 <= y < n implies #[trigger] file_order(keys, n).contains(y) by {
            if y < n - 1 {
                assert(file_order(keys, (n - 1) as nat).contains(y));
            }
        }
    }
}

// ---------------------------------------------------------------------------
// Jobs
// ---------------------------------------------------------------------------
/// A video and the profile that it is encoded by.
#[derive(Debug)]
pub struct Job {
    pub encode_toml: String,
    pub source_file: String,
    /// The folder of the source, from the profile on; kept in the output.
    pub rel_dir: String,
}

/// The stem of the source, and `video` where its path names no file.
pub open spec fn job_stem(j: Job) -> Seq<char> {
    match file_stem(j.source_file@) {
        Some(stem) => stem,
        None => "video"@,
    }
}

/// What the output, the temporary directory and the archive of a job are named by.
pub open spec fn job_name(j: Job) -> Seq<char> {
    joined_path(j.rel_dir@, job_stem(j))
}

impl Job {
    pub fn stem(&self) -> (s: String)
        ensures
            s@ == job_stem(*self),
    {
        match stem_of(self.source_file.as_str()) {
            Some(stem) => stem,
            None => "video".to_owned(),
        }
    }

    /// Where the output of the job goes.
    pub fn output_dir(&self, output_root: &str) -> (s: String)
        ensures
            s@ == joined_path(output_root@, self.rel_dir@),
    {
        join_path(output_root, self.rel_dir.as_str())
    }

    fn name(&self) -> (s: String)
        ensures
            s@ == job_name(*self),
    {
        let stem = self.stem();
        join_path(self.rel_dir.as_str(), stem.as_str())
    }
}

/// What is already there of a job.
#[derive(Debug)]
pub struct JobFacts {
    /// The size of the output, where it is there.
    pub output: Option<u64>,
    /// Whether its temporary directory holds a failure marker.
    pub marked: bool,
    /// The source that the temporary directory was made for, where it is recorded.
    pub recorded: Option<String>,
    /// The source of the job, as such a record would have it.
    pub source_id: String,
}

/// A job is done once its output is there. An empty file is a leftover, not a result.
pub open spec fn done(f: JobFacts) -> bool {
    f.output is Some && f.output->0 > 0
}

/// A marker locks out the file that it was written for; a file of the same name it does not.
pub open spec fn locked_out(f: JobFacts) -> bool {
    f.marked && (f.recorded is None || f.recorded->0@ == f.source_id@)
}

/// Two jobs have one name: as paths, so a slash too many makes no difference.
pub open spec fn share_name(a: Job, b: Job) -> bool {
    parts(job_name(a)) == parts(job_name(b))
}

/// Another job that is not done has the same name.
pub open spec fn collides(jobs: Seq<Job>, facts: Seq<JobFacts>, i: int) -> bool {
    exists|k: int|
        0 <= k < jobs.len() && k != i && !done(#[trigger] facts[k]) && share_name(jobs[k], jobs[i])
}

/// Whether a job is queued. Names are compared before markers are looked at: a marker that
/// hides one side of a clash would let the other run and discard the directory that the
/// marker lies in.
pub open spec fn queued(jobs: Seq<Job>, facts: Seq<JobFacts>, i: int) -> bool {
    !done(facts[i]) && !collides(jobs, facts, i) && !locked_out(facts[i])
}

/// The queued ones among the first `n` jobs.
pub open spec fn queue_of(jobs: Seq<Job>, facts: Seq<JobFacts>, n: nat) -> Seq<int>
    decreases n,
{
    if n == 0 {
        Seq::empty()
    } else {
        let before = queue_of(jobs, facts, (n - 1) as nat);
        if queued(jobs, facts, n - 1) {
            before.push(n - 1)
        } else {
            before
        }
    }
}

pub fn output_exists(size: Option<u64>) -> (r: bool)
    ensures
        r == (size is Some && size->0 > 0),
{
    match size {
        Some(n) => n > 0,
        None => false,
    }
}

/// Whether a marker locks a source out.
pub fn failed_marker(f: &JobFacts) -> (r: bool)
    ensures
        r == locked_out(*f),
{
    f.marked && match &f.recorded {
        Some(prev) => same(prev.as_str(), f.source_id.as_str()),
        None => true,
    }
}

/// Whether folder and stem of a job are shared: they name the output, the temporary directory
/// and the archive, so files that share both wait until one is renamed.
pub fn name_collides(jobs: &[Job], facts: &[JobFacts], i: usize) -> (r: bool)
    requires
        i < jobs@.len() == facts@.len(),
    ensures
        r == collides(jobs@, facts@, i as int),
{
    let own = jobs[i].name();
    let mut k: usize = 0;
    while k < jobs.len()
        invariant
            k <= jobs@.len() == facts@.len(),
            i < jobs@.len(),
            own@ == job_name(jobs@[i as int]),
            forall|j: int|
                0 <= j < k && j != i && !done(#[trigger] facts@[j]) ==> !share_name(
                    jobs@[j],
                    jobs@[i as int],
                ),
        decreases jobs@.len() - k,
    {
        if k != i && !output_exists(facts[k].output) {
            let other = jobs[k].name();
            if same_path(other.as_str(), own.as_str()) {
                assert(!done(facts@[k as int]));
                return true;
            }
        }
        k = k + 1;
    }
    false
}

/// The jobs that are run, in order.
pub fn select_jobs(jobs: &[Job], facts: &[JobFacts]) -> (out: Vec<usize>)
    requires
        jobs@.len() == facts@.len(),
    ensures
        indices(out@) == queue_of(jobs@, facts@, jobs@.len()),
{
    let mut out: Vec<usize> = Vec::new();
    let mut i: usize = 0;
    assert(indices(out@) =~= Seq::empty());
    while i < jobs.len()
        invariant
            i <= jobs@.len() == facts@.len(),
            indices(out@) == queue_of(jobs@, facts@, i as nat),
        decreases jobs@.len() - i,
    {
        let ghost before = indices(out@);
        if !output_exists(facts[i].output) && !name_collides(jobs, facts, i) && !failed_marker(
            &facts[i],
        ) {
            out.push(i);
            assert(indices(out@) =~= before.push(i as int));
        }
        i = i + 1;
    }
    out
}

proof fn lemma_queue(jobs: Seq<Job>, facts: Seq<JobFacts>, n: nat)
    ensures
        forall|k: int|
            0 <= k < queue_of(jobs, facts, n).len() ==> 0 <= #[trigger] queue_of(jobs, facts, n)[k]
                < n && queued(jobs, facts, queue_of(jobs, facts, n)[k]),
        forall|i: int, k: int|
            #![trigger queue_of(jobs, facts, n)[i], queue_of(jobs, facts, n)[k]]
            0 <= i < k < queue_of(jobs, facts, n).len() ==> queue_of(jobs, facts, n)[i] < queue_of(
                jobs,
                facts,
                n,
            )[k],
    decreases n,
{
    if n > 0 {
        lemma_queue(jobs, facts, (n - 1) as nat);
        let before = queue_of(jobs, facts, (n - 1) as nat);
        let now = queue_of(jobs, facts, n);
        assert forall|k: int| 0 <= k < now.len() implies 0 <= #[trigger] now[k] < n && queued(
            jobs,
            facts,
            now[k],
        ) by {
            if k < before.len() {
                assert(now[k] == before[k]);
            }
        }
        assert forall|i: int, k: int|
            #![trigger now[i], now[k]]
            0 <= i < k < now.len() implies now[i] < now[k] by {
            assert(now[i] == before[i]);
            if k < before.len() {
                assert(now[k] == before[k]);
            }
        }
    }
}

/// No two queued jobs share a name, so none overwrites the output of another.
pub proof fn law_queued_jobs_have_names_of_their_own(
    jobs: Seq<Job>,
    facts: Seq<JobFacts>,
    a: int,
    b: int,
)
    requires
        jobs.len() == facts.len(),
        0 <= a < b < queue_of(jobs, facts, jobs.len()).len(),
    ensures
        ({
            let queue = queue_of(jobs, facts, jobs.len());
            !share_name(jobs[queue[a]], jobs[queue[b]])
        }),
{
    lemma_queue(jobs, facts, jobs.len());
    let queue = queue_of(jobs, facts, jobs.len());
    let i = queue[a];
    let k = queue[b];
    assert(i < k && queued(jobs, facts, i) && queued(jobs, facts, k));
    if share_name(jobs[i], jobs[k]) {
        assert(!done(facts[k]));
        assert(collides(jobs, facts, i));
    }
}

proof fn lemma_pieces_hold_no_separator(s: Seq<char>, c: char)
    ensures
        pieces(s, Separator::Char { c }).len() > 0,
        forall|k: int|
            0 <= k < pieces(s, Separator::Char { c }).len() ==> !(#[trigger] pieces(
                s,
                Separator::Char { c },
            )[k]).contains(c),
    decreases s.len(),
{
    if s.len() > 0 {
        lemma_pieces_hold_no_separator(s.drop_last(), c);
        let front = pieces(s.drop_last(), Separator::Char { c });
        let all = pieces(s, Separator::Char { c });
        assert forall|k: int| 0 <= k < all.len() implies !(#[trigger] all[k]).contains(c) by {
            if k < front.len() - 1 || s.last() == c {
                if k < front.len() {
                    assert(all[k] == front[k]);
                }
            } else if all[k].contains(c) {
                let at = choose|at: int| 0 <= at < all[k].len() && all[k][at] == c;
                assert(!front[k].contains(c));
                assert(front[k][at] == c);
            }
        }
    }
}

/// The stem of a job never has a slash in it, so the folder and the stem of a job can be
/// told apart in its name.
pub proof fn law_stems_are_single_names(job: Job)
    ensures
        !job_stem(job).contains('/'),
{
    let path = job.source_file@;
    reveal_strlit("video");
    reveal_strlit("/");
    if let Some(name) = file_name(path) {
        let between = pieces(path, Separator::Char { c: '/' });
        lemma_pieces_hold_no_separator(path, '/');
        let keep = |p: Seq<char>| crate::path::names_something(p);
        let kept = between.filter(keep);
        between.lemma_filter_contains_rev(keep, name);
        lemma_last_at(name, '.');
        let k = choose|k: int| 0 <= k < between.len() && between[k] == name;
        let stem = name_stem(name);
        if stem.contains('/') {
            let i = choose|i: int| 0 <= i < stem.len() && stem[i] == '/';
            assert(name[i] == '/');
        }
    }
}

/// The queue holds, in their order, exactly the jobs that are left to do: no output with
/// anything in it, no other such job of the same name, and no marker that was written for the
/// source as it is.
pub proof fn law_queue_has_what_is_left_to_do(jobs: Seq<Job>, facts: Seq<JobFacts>, n: nat, i: int)
    requires
        jobs.len() == facts.len(),
        n <= jobs.len(),
        0 <= i < n,
    ensures
        queue_of(jobs, facts, n).contains(i) <==> {
            &&& facts[i].output is None || facts[i].output == Some(0u64)
            &&& forall|k: int|
                0 <= k < jobs.len() && k != i && ((#[trigger] facts[k]).output is None
                    || facts[k].output == Some(0u64)) ==> parts(job_name(jobs[k])) != parts(
                    job_name(jobs[i]),
                )
            &&& facts[i].marked ==> facts[i].recorded is Some && facts[i].recorded->0@
                != facts[i].source_id@
        },
    decreases n,
{
    let queue = queue_of(jobs, facts, n);
    let m = (n - 1) as nat;
    let before = queue_of(jobs, facts, m);
    lemma_queue(jobs, facts, m);
    lemma_queue(jobs, facts, n);
    if i < m {
        law_queue_has_what_is_left_to_do(jobs, facts, m, i);
        if before.contains(i) {
            let k = choose|k: int| 0 <= k < before.len() && before[k] == i;
            assert(queue[k] == i);
        }
        if queue.contains(i) {
            let k = choose|k: int| 0 <= k < queue.len() && queue[k] == i;
            assert(k < before.len());
            assert(before[k] == i);
        }
    } else {
        if queued(jobs, facts, i) {
            assert(queue[before.len() as int] == i);
        } else if queue.contains(i) {
            let k = choose|k: int| 0 <= k < queue.len() && queue[k] == i;
            assert(queued(jobs, facts, queue[k]));
        }
        assert(queue.contains(i) <==> queued(jobs, facts, i));
        if collides(jobs, facts, i) {
            let k = choose|k: int|
                0 <= k < jobs.len() && k != i && !done(#[trigger] facts[k]) && share_name(
                    jobs[k],
                    jobs[i],
                );
            assert(facts[k].output is None || facts[k].output == Some(0u64));
        } else {
            assert forall|k: int|
                0 <= k < jobs.len() && k != i && ((#[trigger] facts[k]).output is None
                    || facts[k].output == Some(0u64)) implies parts(job_name(jobs[k])) != parts(
                job_name(jobs[i]),
            ) by {
                assert(!done(facts[k]));
                assert(!share_name(jobs[k], jobs[i]));
            }
        }
    }
}

/// A name falls apart at its last dot: what is in front of it is the stem, what is behind it
/// the extension. One without a dot, or with one at its start alone, is all stem.
pub proof fn law_names_fall_apart_at_the_last_dot(stem: Seq<char>, ext: Seq<char>)
    requires
        !ext.contains('.'),
    ensures
        stem.len() > 0 ==> name_stem(stem.push('.') + ext) == stem && name_extension(
            stem.push('.') + ext,
        ) == Some(ext),
        name_stem(ext) == ext && name_extension(ext) is None,
        name_stem(seq!['.'] + ext) == seq!['.'] + ext && name_extension(seq!['.'] + ext) is None,
{
    let name = stem.push('.') + ext;
    lemma_last_at(name, '.');
    lemma_last_at(ext, '.');
    let at = stem.len() as int;
    assert(name[at] == '.');
    let found = last_at(name, '.');
    if found > at {
        assert(name[found] == ext[found - at - 1]);
        assert(ext.contains(ext[found - at - 1]));
    }
    assert(found == at);
    assert(name.subrange(0, at) =~= stem);
    assert(name.subrange(at + 1, name.len() as int) =~= ext);
    let whole = last_at(ext, '.');
    if whole >= 0 {
        assert(ext.contains(ext[whole]));
    }
    let short = seq!['.'] + ext;
    lemma_last_at(short, '.');
    let last = last_at(short, '.');
    if last > 0 {
        assert(short[last] == ext[last - 1]);
        assert(ext.contains(ext[last - 1]));
    }
}

/// A file is a video by its extension alone, in whichever case, unless it is hidden.
pub proof fn law_videos_are_told_by_their_extension(stem: Seq<char>, ext: Seq<char>)
    requires
        stem.len() > 0,
        !ext.contains('.'),
    ensures
        video_name(stem.push('.') + ext) <==> stem[0] != '.' && video_extension(lower_letters(ext)),
        !video_name(ext),
{
    law_names_fall_apart_at_the_last_dot(stem, ext);
    assert((stem.push('.') + ext)[0] == stem[0]);
}

/// The containers that are taken, by their extensions.
pub open spec fn containers() -> Seq<Seq<char>> {
    seq!["mkv"@, "mp4"@, "mov"@, "avi"@, "ts"@, "m2ts"@, "flv"@, "webm"@, "m4v"@]
}

/// A file in any of the containers is a video, whatever it is named and in whichever case its
/// extension is written, unless it is hidden; a file with another extension is none.
pub proof fn law_every_container_is_taken(stem: Seq<char>, ext: Seq<char>)
    requires
        stem.len() > 0,
        stem[0] != '.',
        !ext.contains('.'),
    ensures
        video_name(stem.push('.') + ext) <==> exists|k: int|
            0 <= k < containers().len() && #[trigger] containers()[k] == lower_letters(ext),
{
    law_videos_are_told_by_their_extension(stem, ext);
    let low = lower_letters(ext);
    let all = containers();
    assert(all[0] == "mkv"@ && all[1] == "mp4"@ && all[2] == "mov"@ && all[3] == "avi"@ && all[4]
        == "ts"@ && all[5] == "m2ts"@ && all[6] == "flv"@ && all[7] == "webm"@ && all[8] == "m4v"@);
}

/// A folder comes in front of what lies inside it, and all of that in front of a folder whose
/// name only starts the same.
pub proof fn law_folders_are_taken_whole(
    folder: Seq<char>,
    inside: Seq<char>,
    c: char,
    rest: Seq<char>,
)
    requires
        c > '\0',
        c != '/',
    ensures
        less(folder_key(folder), folder_key(folder.push('/') + inside)),
        less(folder_key(folder.push('/') + inside), folder_key(folder.push(c) + rest)),
{
    let f = folder_key(folder);
    let a = seq!['\0'] + folder_key(inside);
    let b = seq![c] + folder_key(rest);
    assert(folder_key(folder.push('/') + inside) =~= f + a);
    assert(folder_key(folder.push(c) + rest) =~= f + b);
    lemma_less_behind(f, a, b);
    lemma_less_behind(f, Seq::empty(), a);
    assert(f + Seq::<char>::empty() =~= f);
}

} // verus!
