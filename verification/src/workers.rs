//! How many chunks are encoded at once: by cores, and by the memory that the host and the
//! control groups leave.
use crate::path::{join_path, joined_path};
use crate::text::{
    char_lists, decimal, find_from, first_at, from_chars, has_prefix, law_decimal_round_trip,
    lemma_decimal_is_plain, lemma_first_at, lemma_first_separator, lines, occurs_at,
    parse_unsigned, part, pieces, same, same_chars, split_lines, split_words, starts_with,
    str_of, strings, to_chars, trim, trimmed, unsigned, words, Separator,
};
use vstd::prelude::*;
use vstd::string::*;

verus! {

/// How the workers were counted.
#[derive(Clone, Copy, Debug, PartialEq, Eq, Structural)]
pub struct Split {
    pub workers: usize,
    pub by_cpu: usize,
    pub by_ram: usize,
}

pub open spec fn at_least_one(n: usize) -> usize {
    if n >= 1 {
        n
    } else {
        1
    }
}

/// The workers that cores and memory allow, whichever allows fewer, and at least one.
pub fn split(cpu_cores: usize, by_ram: usize, threads_per_worker: usize) -> (s: Split)
    requires
        threads_per_worker > 0,
    ensures
        s.by_cpu == cpu_cores as int / threads_per_worker as int,
        s.by_ram == by_ram,
        s.workers == at_least_one(
            if s.by_cpu <= s.by_ram {
                s.by_cpu
            } else {
                s.by_ram
            },
        ),
        s.workers >= 1,
        s.workers > 1 ==> s.workers * threads_per_worker <= cpu_cores && s.workers <= by_ram,
        (s.workers + 1) * threads_per_worker > cpu_cores || s.workers + 1 > by_ram,
{
    let by_cpu: usize = cpu_cores / threads_per_worker;
    let fewer: usize = if by_cpu <= by_ram {
        by_cpu
    } else {
        by_ram
    };
    let workers: usize = if fewer >= 1 {
        fewer
    } else {
        1
    };
    proof {
        let (c, t) = (cpu_cores as int, threads_per_worker as int);
        vstd::arithmetic::div_mod::lemma_fundamental_div_mod(c, t);
        vstd::arithmetic::div_mod::lemma_mod_bound(c, t);
        assert(by_cpu * t <= c < (by_cpu + 1) * t) by (nonlinear_arith)
            requires
                c == t * by_cpu + c % t,
                0 <= c % t < t,
        ;
        assert(workers <= by_cpu ==> workers * t <= by_cpu * t) by (nonlinear_arith)
            requires
                t > 0,
        ;
        assert(by_cpu + 1 <= workers + 1 ==> (by_cpu + 1) * t <= (workers + 1) * t)
            by (nonlinear_arith)
            requires
                t > 0,
        ;
    }
    Split { workers, by_cpu, by_ram }
}

// ---------------------------------------------------------------------------
// Control groups
// ---------------------------------------------------------------------------
/// A line of `/proc/self/cgroup`: an ID, the controllers and a path, between colons.
pub open spec fn cgroup_line(line: Seq<char>) -> Option<(Seq<char>, Seq<char>)> {
    match first_at(line, ":"@, 0) {
        None => None,
        Some(a) => match first_at(line, ":"@, a + 1) {
            None => None,
            Some(b) => Some(
                (line.subrange(a + 1, b), line.subrange(b + 1, line.len() as int)),
            ),
        },
    }
}

/// The controllers and paths of all lines that have them.
pub open spec fn cgroup_lines(all: Seq<Seq<char>>) -> Seq<(Seq<char>, Seq<char>)>
    decreases all.len(),
{
    if all.len() == 0 {
        Seq::empty()
    } else {
        match cgroup_line(all.last()) {
            Some(entry) => cgroup_lines(all.drop_last()).push(entry),
            None => cgroup_lines(all.drop_last()),
        }
    }
}

/// The path of the last entry for a controller.
pub open spec fn path_of(
    entries: Seq<(Seq<char>, Seq<char>)>,
    controller: Seq<char>,
) -> Option<Seq<char>>
    decreases entries.len(),
{
    if entries.len() == 0 {
        None
    } else if entries.last().0 == controller {
        Some(entries.last().1)
    } else {
        path_of(entries.drop_last(), controller)
    }
}

/// Control group paths by controller; the unified hierarchy is the empty string.
#[derive(Debug)]
pub struct CgroupPaths {
    pub entries: Vec<(String, String)>,
}

impl View for CgroupPaths {
    type V = Seq<(Seq<char>, Seq<char>)>;

    open spec fn view(&self) -> Seq<(Seq<char>, Seq<char>)> {
        Seq::new(self.entries@.len(), |i: int| (self.entries@[i].0@, self.entries@[i].1@))
    }
}

impl CgroupPaths {
    /// The path for a controller.
    pub fn get(&self, controller: &str) -> (r: Option<&String>)
        ensures
            match r {
                Some(p) => path_of(self@, controller@) == Some(p@),
                None => path_of(self@, controller@) is None,
            },
    {
        let mut i: usize = self.entries.len();
        assert(self@.subrange(0, i as int) =~= self@);
        while i > 0
            invariant
                i <= self.entries@.len(),
                path_of(self@.subrange(0, i as int), controller@) == path_of(self@, controller@),
            decreases i,
        {
            i = i - 1;
            proof {
                assert(self@.subrange(0, i + 1).drop_last() =~= self@.subrange(0, i as int));
                assert(self@.subrange(0, i + 1).last() == (
                    self.entries@[i as int].0@,
                    self.entries@[i as int].1@,
                ));
            }
            if same(self.entries[i].0.as_str(), controller) {
                return Some(&self.entries[i].1);
            }
        }
        None
    }
}

pub fn parse_cgroup_paths(text: &str) -> (r: CgroupPaths)
    ensures
        r@ == cgroup_lines(lines(text@)),
{
    let chars = to_chars(text);
    let all = split_lines(chars.as_slice());
    let ghost views = char_lists(all@);
    let colon = to_chars(":");
    let mut r = CgroupPaths { entries: Vec::new() };
    let mut i: usize = 0;
    proof {
        assert(views.subrange(0, 0) =~= Seq::empty());
        assert(r@ =~= Seq::empty());
    }
    while i < all.len()
        invariant
            i <= all@.len(),
            views == char_lists(all@),
            colon@ == ":"@,
            r@ == cgroup_lines(views.subrange(0, i as int)),
        decreases all@.len() - i,
    {
        let ghost before = r@;
        proof {
            assert(views.subrange(0, i + 1).drop_last() =~= views.subrange(0, i as int));
            assert(views.subrange(0, i + 1).last() == all@[i as int]@);
            reveal_strlit(":");
        }
        let line = all[i].as_slice();
        let len: usize = line.len();
        if let Some(a) = find_from(line, colon.as_slice(), 0) {
            if let Some(b) = find_from(line, colon.as_slice(), a + 1) {
                proof {
                    crate::text::lemma_first_at(line@, ":"@, a + 1);
                }
                let controllers = part(line, a + 1, b);
                let path = part(line, b + 1, len);
                r.entries.push(
                    (from_chars(controllers.as_slice()), from_chars(path.as_slice())),
                );
                assert(r@ =~= before.push((controllers@, path@)));
            }
        }
        i = i + 1;
    }
    assert(views.subrange(0, i as int) =~= views);
    r
}

/// The directory of `root` and each of `parts` below the one before it; empty parts are
/// passed over.
pub open spec fn nested_dirs(root: Seq<char>, parts: Seq<Seq<char>>) -> Seq<Seq<char>>
    decreases parts.len(),
{
    if parts.len() == 0 {
        seq![root]
    } else {
        let dirs = nested_dirs(root, parts.drop_last());
        if parts.last().len() == 0 {
            dirs
        } else {
            dirs.push(joined_path(dirs.last(), parts.last()))
        }
    }
}

/// The parts of a control group path.
pub open spec fn group_parts(rel: Option<Seq<char>>) -> Seq<Seq<char>> {
    match rel {
        Some(r) => pieces(r, Separator::Char { c: '/' }),
        None => Seq::empty(),
    }
}

/// `root`, then each directory on the way down to the group `rel`. The path of a group is
/// absolute inside its hierarchy.
pub fn cgroup_dirs(root: &str, rel: Option<&str>) -> (dirs: Vec<String>)
    ensures
        strings(dirs@) == nested_dirs(
            root@,
            group_parts(
                match rel {
                    Some(r) => Some(r@),
                    None => None,
                },
            ),
        ),
{
    let parts = match rel {
        Some(r) => {
            let chars = to_chars(r);
            crate::text::split(chars.as_slice(), Separator::Char { c: '/' })
        },
        None => Vec::new(),
    };
    let ghost views = char_lists(parts@);
    proof {
        if rel is None {
            assert(views =~= Seq::empty());
        }
    }
    let mut dirs: Vec<String> = Vec::new();
    dirs.push(root.to_owned());
    let mut i: usize = 0;
    proof {
        assert(views.subrange(0, 0) =~= Seq::empty());
        assert(strings(dirs@) =~= seq![root@]);
    }
    while i < parts.len()
        invariant
            i <= parts@.len(),
            views == char_lists(parts@),
            dirs@.len() > 0,
            strings(dirs@) == nested_dirs(root@, views.subrange(0, i as int)),
        decreases parts@.len() - i,
    {
        proof {
            assert(views.subrange(0, i + 1).drop_last() =~= views.subrange(0, i as int));
            assert(views.subrange(0, i + 1).last() == parts@[i as int]@);
        }
        if parts[i].len() > 0 {
            let ghost before = strings(dirs@);
            let name = from_chars(parts[i].as_slice());
            let next = join_path(dirs[dirs.len() - 1].as_str(), name.as_str());
            let ghost view = next@;
            dirs.push(next);
            assert(strings(dirs@) =~= before.push(view));
        }
        i = i + 1;
    }
    assert(views.subrange(0, i as int) =~= views);
    dirs
}

/// The file-backed pages that one line of `memory.stat` counts.
pub open spec fn reclaimable_in(line: Seq<char>) -> Option<nat> {
    match first_at(line, " "@, 0) {
        None => None,
        Some(at) => {
            let key = line.subrange(0, at);
            if key == "inactive_file"@ || key == "total_inactive_file"@ {
                unsigned(trimmed(line.subrange(at + 1, line.len() as int)), u64::MAX as nat)
            } else {
                None
            }
        },
    }
}

/// The first such count among lines, from line `from` on.
pub open spec fn first_reclaimable(all: Seq<Seq<char>>, from: int) -> nat
    decreases all.len() - from,
{
    if from < 0 || from >= all.len() {
        0
    } else {
        match reclaimable_in(all[from]) {
            Some(n) => n,
            None => first_reclaimable(all, from + 1),
        }
    }
}

fn read_reclaimable(line: &[char]) -> (r: Option<u64>)
    ensures
        match r {
            Some(n) => reclaimable_in(line@) == Some(n as nat),
            None => reclaimable_in(line@) is None,
        },
{
    let space = to_chars(" ");
    let v2 = to_chars("inactive_file");
    let v1 = to_chars("total_inactive_file");
    proof {
        reveal_strlit(" ");
    }
    let len: usize = line.len();
    match find_from(line, space.as_slice(), 0) {
        None => None,
        Some(at) => {
            let key = part(line, 0, at);
            if same_chars(key.as_slice(), v2.as_slice()) || same_chars(
                key.as_slice(),
                v1.as_slice(),
            ) {
                let value = part(line, at + 1, len);
                let inner = trim(value.as_slice());
                parse_unsigned(inner.as_slice(), 0xffff_ffff_ffff_ffff)
            } else {
                None
            }
        },
    }
}

/// Pages of a control group that the kernel can drop on demand, by its `memory.stat`.
pub fn reclaimable_bytes(stat: Option<&str>) -> (n: u64)
    ensures
        n == match stat {
            Some(text) => first_reclaimable(lines(text@), 0),
            None => 0,
        },
{
    let text = match stat {
        Some(text) => text,
        None => {
            return 0;
        },
    };
    let chars = to_chars(text);
    let all = split_lines(chars.as_slice());
    let ghost views = char_lists(all@);
    let mut i: usize = 0;
    while i < all.len()
        invariant
            i <= all@.len(),
            views == char_lists(all@),
            views == lines(text@),
            stat == Some(text),
            first_reclaimable(views, i as int) == first_reclaimable(views, 0),
        decreases all@.len() - i,
    {
        assert(views[i as int] == all@[i as int]@);
        if let Some(n) = read_reclaimable(all[i].as_slice()) {
            return n;
        }
        i = i + 1;
    }
    0
}

/// A number in a file of its own.
pub open spec fn file_number(text: Option<Seq<char>>) -> Option<nat> {
    match text {
        Some(t) => unsigned(trimmed(t), u64::MAX as nat),
        None => None,
    }
}

fn read_number(text: Option<&str>) -> (r: Option<u64>)
    ensures
        match r {
            Some(n) => file_number(str_of(text)) == Some(n as nat),
            None => file_number(str_of(text)) is None,
        },
{
    match text {
        Some(t) => {
            let chars = to_chars(t);
            let inner = trim(chars.as_slice());
            parse_unsigned(inner.as_slice(), 0xffff_ffff_ffff_ffff)
        },
        None => None,
    }
}

/// What a limit leaves of memory that is used, a part of which can be reclaimed.
pub open spec fn memory_left(limit: int, used: int, reclaimable: int) -> int {
    let held = if used > reclaimable {
        used - reclaimable
    } else {
        0
    };
    if limit > held {
        limit - held
    } else {
        0
    }
}

/// What is left and what is held make up the limit, unless more is held than that; what can be
/// reclaimed is not held. More use never leaves more.
pub proof fn law_memory_left_is_what_is_not_held(limit: int, used: int, reclaimable: int, more: int)
    requires
        0 <= limit,
        0 <= reclaimable,
        0 <= used <= more,
    ensures
        0 <= memory_left(limit, used, reclaimable) <= limit,
        used <= reclaimable ==> memory_left(limit, used, reclaimable) == limit,
        reclaimable <= used <= limit + reclaimable ==> memory_left(limit, used, reclaimable) + (used
            - reclaimable) == limit,
        used - reclaimable >= limit ==> memory_left(limit, used, reclaimable) == 0,
        memory_left(limit, more, reclaimable) <= memory_left(limit, used, reclaimable),
{
}

/// The bytes that a control group leaves: its limit less what it uses and cannot reclaim.
/// None when it has no limit, which is a word or a number near the largest.
pub fn headroom(limit: Option<&str>, usage: Option<&str>, stat: Option<&str>) -> (r: Option<u64>)
    ensures
        match file_number(str_of(limit)) {
            None => r is None,
            Some(l) => if l >= u64::MAX / 2 {
                r is None
            } else {
                let used = match file_number(str_of(usage)) {
                    Some(u) => u as int,
                    None => 0,
                };
                let reclaimable = match stat {
                    Some(text) => first_reclaimable(lines(text@), 0) as int,
                    None => 0,
                };
                r == Some(memory_left(l as int, used, reclaimable) as u64)
            },
        },
{
    let limit_bytes: u64 = match read_number(limit) {
        Some(l) => l,
        None => {
            return None;
        },
    };
    if limit_bytes >= u64::MAX / 2 {
        return None;
    }
    let usage_bytes: u64 = match read_number(usage) {
        Some(u) => u,
        None => 0,
    };
    let reclaimable: u64 = reclaimable_bytes(stat);
    let used: u64 = usage_bytes.saturating_sub(reclaimable);
    Some(limit_bytes.saturating_sub(used))
}

/// The line of `/proc/meminfo` with the memory that is available, from line `from` on.
pub open spec fn available_line(all: Seq<Seq<char>>, from: int) -> Option<Seq<char>>
    decreases all.len() - from,
{
    if from < 0 || from >= all.len() {
        None
    } else if has_prefix(all[from], "MemAvailable:"@) {
        Some(all[from])
    } else {
        available_line(all, from + 1)
    }
}

/// The available memory in KiB.
pub fn meminfo_available_kib(meminfo: &str) -> (r: Option<u64>)
    ensures
        match available_line(lines(meminfo@), 0) {
            None => r is None,
            Some(line) => if words(line).len() < 2 {
                r is None
            } else {
                match r {
                    Some(n) => unsigned(words(line)[1], u64::MAX as nat) == Some(n as nat),
                    None => unsigned(words(line)[1], u64::MAX as nat) is None,
                }
            },
        },
{
    let chars = to_chars(meminfo);
    let all = split_lines(chars.as_slice());
    let ghost views = char_lists(all@);
    let mut i: usize = 0;
    while i < all.len()
        invariant
            i <= all@.len(),
            views == char_lists(all@),
            views == lines(meminfo@),
            available_line(views, i as int) == available_line(views, 0),
        decreases all@.len() - i,
    {
        assert(views[i as int] == all@[i as int]@);
        if starts_with(all[i].as_slice(), "MemAvailable:") {
            let found = split_words(all[i].as_slice());
            if found.len() < 2 {
                return None;
            }
            assert(char_lists(found@)[1] == found@[1]@);
            return parse_unsigned(found[1].as_slice(), 0xffff_ffff_ffff_ffff);
        }
        i = i + 1;
    }
    None
}

/// The least of the limits that are there.
pub open spec fn least(levels: Seq<Option<u64>>) -> Option<u64>
    decreases levels.len(),
{
    if levels.len() == 0 {
        None
    } else {
        match (least(levels.drop_last()), levels.last()) {
            (Some(a), Some(b)) => Some(
                if b < a {
                    b
                } else {
                    a
                },
            ),
            (Some(a), None) => Some(a),
            (None, b) => b,
        }
    }
}

/// What is left of memory, by what each control group leaves of it: a limit can sit on any
/// level, so the tightest counts.
pub fn tightest(levels: &[Option<u64>]) -> (r: Option<u64>)
    ensures
        r == least(levels@),
        match r {
            Some(n) => levels@.contains(Some(n)) && forall|i: int|
                0 <= i < levels@.len() ==> ((#[trigger] levels@[i]) matches Some(m) ==> n <= m),
            None => forall|i: int| 0 <= i < levels@.len() ==> (#[trigger] levels@[i]) is None,
        },
{
    let mut r: Option<u64> = None;
    let mut i: usize = 0;
    assert(levels@.subrange(0, 0) =~= Seq::empty());
    while i < levels.len()
        invariant
            i <= levels@.len(),
            r == least(levels@.subrange(0, i as int)),
            match r {
                Some(n) => levels@.contains(Some(n)) && forall|k: int|
                    0 <= k < i ==> ((#[trigger] levels@[k]) matches Some(m) ==> n <= m),
                None => forall|k: int| 0 <= k < i ==> (#[trigger] levels@[k]) is None,
            },
        decreases levels@.len() - i,
    {
        assert(levels@.subrange(0, i + 1).drop_last() =~= levels@.subrange(0, i as int));
        let level = levels[i];
        assert(levels@[i as int] == level);
        r = match (r, level) {
            (Some(a), Some(b)) => Some(
                if b < a {
                    b
                } else {
                    a
                },
            ),
            (Some(a), None) => Some(a),
            (None, b) => b,
        };
        i = i + 1;
    }
    assert(levels@.subrange(0, i as int) =~= levels@);
    r
}

// ---------------------------------------------------------------------------
// What is read is what was written
// ---------------------------------------------------------------------------
/// A line of control groups reads as it is written: the controllers between the two colons,
/// and everything behind the second one is the path.
pub proof fn law_group_line_reads_as_written(
    id: Seq<char>,
    controllers: Seq<char>,
    path: Seq<char>,
)
    requires
        !id.contains(':'),
        !controllers.contains(':'),
    ensures
        cgroup_line(id + ":"@ + (controllers + ":"@ + path)) == Some((controllers, path)),
{
    reveal_strlit(":");
    let rest = controllers + ":"@ + path;
    let line = id + ":"@ + rest;
    lemma_first_separator(id, ":"@, rest);
    lemma_first_separator(controllers, ":"@, path);
    let a = id.len() as int;
    let b = a + 1 + controllers.len();
    assert(occurs_at(line, ":"@, b)) by {
        assert(line.subrange(b, b + 1) =~= ":"@);
    }
    assert forall|k: int| a + 1 <= k < b implies !#[trigger] occurs_at(line, ":"@, k) by {
        assert(line.subrange(k, k + 1)[0] == controllers[k - a - 1]);
    }
    lemma_first_at(line, ":"@, a + 1);
    assert(line.subrange(a + 1, b) =~= controllers);
    assert(line.subrange(b + 1, line.len() as int) =~= path);
}

/// The path of a controller is that of its last entry.
pub proof fn law_last_group_counts(entries: Seq<(Seq<char>, Seq<char>)>, controller: Seq<char>)
    ensures
        match path_of(entries, controller) {
            Some(p) => exists|i: int|
                0 <= i < entries.len() && #[trigger] entries[i] == (controller, p) && forall|j: int|
                    i < j < entries.len() ==> (#[trigger] entries[j]).0 != controller,
            None => forall|i: int| 0 <= i < entries.len() ==> (#[trigger] entries[i]).0 != controller,
        },
    decreases entries.len(),
{
    if entries.len() > 0 {
        let front = entries.drop_last();
        law_last_group_counts(front, controller);
        assert(forall|i: int| 0 <= i < front.len() ==> #[trigger] entries[i] == front[i]);
        if let Some(p) = path_of(entries, controller) {
            if entries.last().0 == controller {
                assert(entries[entries.len() - 1] == (controller, p));
            } else {
                let i = choose|i: int|
                    0 <= i < front.len() && #[trigger] front[i] == (controller, p) && forall|j: int|
                        i < j < front.len() ==> (#[trigger] front[j]).0 != controller;
                assert(entries[i] == (controller, p));
            }
        }
    }
}

/// The directories lead from the root to the group: the first is the root, and each of the
/// others lies below the one in front of it by one part of the path that is not empty.
pub proof fn law_directories_lead_down_to_the_group(root: Seq<char>, parts: Seq<Seq<char>>)
    ensures
        ({
            let dirs = nested_dirs(root, parts);
            let names = parts.filter(|p: Seq<char>| p.len() > 0);
            &&& dirs.len() == names.len() + 1
            &&& dirs[0] == root
            &&& forall|i: int|
                0 <= i < names.len() ==> dirs[i + 1] == joined_path(dirs[i], #[trigger] names[i])
        }),
    decreases parts.len(),
{
    reveal(Seq::filter);
    if parts.len() > 0 {
        let front = parts.drop_last();
        law_directories_lead_down_to_the_group(root, front);
        let p = |p: Seq<char>| p.len() > 0;
        let (dirs, names) = (nested_dirs(root, parts), parts.filter(p));
        let (few, some) = (nested_dirs(root, front), front.filter(p));
        if parts.last().len() > 0 {
            assert(names == some.push(parts.last()));
            assert forall|i: int| 0 <= i < names.len() implies dirs[i + 1] == joined_path(
                dirs[i],
                #[trigger] names[i],
            ) by {
                if i < some.len() {
                    assert(names[i] == some[i]);
                    assert(dirs[i] == few[i] && dirs[i + 1] == few[i + 1]);
                }
            }
        }
    }
}

/// A count of pages that can be dropped reads as it is written, under either name and under
/// no other.
pub proof fn law_reclaimable_reads_as_written(key: Seq<char>, n: u64)
    requires
        !key.contains(' '),
    ensures
        reclaimable_in(key + " "@ + decimal(n as nat)) == if key == "inactive_file"@ || key
            == "total_inactive_file"@ {
            Some(n as nat)
        } else {
            None
        },
{
    reveal_strlit(" ");
    law_decimal_round_trip(n as nat, u64::MAX as nat);
    lemma_decimal_is_plain(n as nat, ' ');
    lemma_first_separator(key, " "@, decimal(n as nat));
}

/// The first line that counts such pages is the one that is read.
pub proof fn law_first_count_is_read(all: Seq<Seq<char>>, from: int)
    requires
        0 <= from,
    ensures
        (forall|i: int| from <= i < all.len() ==> reclaimable_in(#[trigger] all[i]) is None)
            ==> first_reclaimable(all, from) == 0,
        forall|i: int|
            from <= i < all.len() && reclaimable_in(#[trigger] all[i]) is Some && (forall|j: int|
                from <= j < i ==> reclaimable_in(#[trigger] all[j]) is None) ==> first_reclaimable(
                all,
                from,
            ) == reclaimable_in(all[i])->0,
    decreases all.len() - from,
{
    if from < all.len() && reclaimable_in(all[from]) is None {
        law_first_count_is_read(all, from + 1);
    }
}

/// The first line that has the available memory is the one that is read.
pub proof fn law_first_available_line_is_read(all: Seq<Seq<char>>, from: int)
    requires
        0 <= from,
    ensures
        match available_line(all, from) {
            Some(line) => has_prefix(line, "MemAvailable:"@) && exists|i: int|
                from <= i < all.len() && #[trigger] all[i] == line && forall|j: int|
                    from <= j < i ==> !has_prefix(#[trigger] all[j], "MemAvailable:"@),
            None => forall|i: int|
                from <= i < all.len() ==> !has_prefix(#[trigger] all[i], "MemAvailable:"@),
        },
    decreases all.len() - from,
{
    if from < all.len() {
        if has_prefix(all[from], "MemAvailable:"@) {
            assert(all[from] == available_line(all, from)->0);
        } else {
            law_first_available_line_is_read(all, from + 1);
            if let Some(line) = available_line(all, from) {
                let i = choose|i: int|
                    from + 1 <= i < all.len() && #[trigger] all[i] == line && forall|j: int|
                        from + 1 <= j < i ==> !has_prefix(#[trigger] all[j], "MemAvailable:"@);
                assert(all[i] == line);
            }
        }
    }
}

/// Every line that has an ID, controllers and a path gives an entry, in their order.
pub proof fn law_every_group_line_counts(all: Seq<Seq<char>>)
    ensures
        ({
            let good = all.filter(|l: Seq<char>| cgroup_line(l) is Some);
            let entries = cgroup_lines(all);
            entries.len() == good.len() && forall|k: int|
                0 <= k < good.len() ==> cgroup_line(#[trigger] good[k]) == Some(entries[k])
        }),
    decreases all.len(),
{
    reveal(Seq::filter);
    if all.len() > 0 {
        law_every_group_line_counts(all.drop_last());
    }
}

} // verus!
