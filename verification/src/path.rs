//! Paths as text: their parts, the name of a file, and a path below another.
use crate::text::{
    char_lists, lemma_one_piece, lemma_pieces, lemma_pieces_join, part, pieces, same_chars,
    separates, split, to_chars, Separator,
};
use vstd::prelude::*;
use vstd::string::*;

verus! {

/// What stands between slashes and names something: an empty part and a dot do not.
pub open spec fn names_something(p: Seq<char>) -> bool {
    p.len() > 0 && p != "."@
}

pub open spec fn is_absolute(path: Seq<char>) -> bool {
    path.len() > 0 && path[0] == '/'
}

/// The parts of a path, by which paths are compared: the root as a slash, a dot only where
/// the path starts with it, and every name.
pub open spec fn parts(path: Seq<char>) -> Seq<Seq<char>> {
    let between = pieces(path, Separator::Char { c: '/' });
    let start = if is_absolute(path) {
        seq!["/"@]
    } else if between[0] == "."@ {
        seq!["."@]
    } else {
        Seq::empty()
    };
    start + between.filter(|p: Seq<char>| names_something(p))
}

/// The name of the file at a path, unless that ends in the root, a dot or two dots.
pub open spec fn file_name(path: Seq<char>) -> Option<Seq<char>> {
    let all = parts(path);
    if all.len() == 0 || all.last() == "/"@ || all.last() == "."@ || all.last() == ".."@ {
        None
    } else {
        Some(all.last())
    }
}

/// A path below a directory. An absolute one stands for itself.
pub open spec fn joined_path(dir: Seq<char>, name: Seq<char>) -> Seq<char> {
    if dir.len() == 0 || is_absolute(name) {
        name
    } else if dir.last() == '/' {
        dir + name
    } else {
        dir + "/"@ + name
    }
}

pub fn join_path(dir: &str, name: &str) -> (path: String)
    ensures
        path@ == joined_path(dir@, name@),
{
    let chars = to_chars(dir);
    let below = to_chars(name);
    let mut path = String::new();
    if below.len() > 0 && below[0] == '/' {
        path.append(name);
        assert(path@ =~= name@);
        return path;
    }
    path.append(dir);
    if chars.len() > 0 && chars[chars.len() - 1] != '/' {
        path.append("/");
    }
    path.append(name);
    assert(path@ =~= joined_path(dir@, name@));
    path
}

/// The parts of a path.
pub fn path_parts(path: &str) -> (out: Vec<Vec<char>>)
    ensures
        char_lists(out@) == parts(path@),
{
    let chars = to_chars(path);
    let dot = to_chars(".");
    let between = split(chars.as_slice(), Separator::Char { c: '/' });
    let ghost views = char_lists(between@);
    let ghost keep = |p: Seq<char>| names_something(p);
    proof {
        reveal_strlit("/");
        crate::text::lemma_pieces(path@, Separator::Char { c: '/' });
    }
    let mut out: Vec<Vec<char>> = Vec::new();
    if chars.len() > 0 && chars[0] == '/' {
        out.push(to_chars("/"));
        assert(char_lists(out@) =~= seq!["/"@]);
    } else if same_chars(between[0].as_slice(), dot.as_slice()) {
        out.push(to_chars("."));
        assert(char_lists(out@) =~= seq!["."@]);
    } else {
        assert(char_lists(out@) =~= Seq::empty());
    }
    let ghost start = char_lists(out@);
    let mut i: usize = 0;
    proof {
        reveal(Seq::filter);
        assert(views.subrange(0, 0).filter(keep) =~= Seq::empty());
        assert(start =~= start + views.subrange(0, 0).filter(keep));
    }
    while i < between.len()
        invariant
            i <= between@.len(),
            views == char_lists(between@),
            dot@ == "."@,
            keep == (|p: Seq<char>| names_something(p)),
            char_lists(out@) == start + views.subrange(0, i as int).filter(keep),
        decreases between@.len() - i,
    {
        let ghost before = char_lists(out@);
        let ghost p = views[i as int];
        proof {
            reveal(Seq::filter);
            assert(views.subrange(0, i + 1).drop_last() =~= views.subrange(0, i as int));
            assert(views.subrange(0, i + 1).last() == p);
        }
        if between[i].len() > 0 && !same_chars(between[i].as_slice(), dot.as_slice()) {
            let len: usize = between[i].len();
            let copy = part(between[i].as_slice(), 0, len);
            assert(copy@ =~= p);
            out.push(copy);
            assert(char_lists(out@) =~= before.push(p));
            assert(before.push(p) =~= start + views.subrange(0, i as int).filter(keep).push(p));
        }
        i = i + 1;
    }
    assert(views.subrange(0, i as int) =~= views);
    out
}

/// Whether two paths have the same parts.
pub fn same_path(a: &str, b: &str) -> (r: bool)
    ensures
        r == (parts(a@) == parts(b@)),
{
    let x = path_parts(a);
    let y = path_parts(b);
    if x.len() != y.len() {
        assert(char_lists(x@).len() != char_lists(y@).len());
        return false;
    }
    let mut i: usize = 0;
    while i < x.len()
        invariant
            i <= x@.len() == y@.len(),
            char_lists(x@) == parts(a@),
            char_lists(y@) == parts(b@),
            forall|k: int| 0 <= k < i ==> (#[trigger] x@[k])@ == y@[k]@,
        decreases x@.len() - i,
    {
        if !same_chars(x[i].as_slice(), y[i].as_slice()) {
            assert(char_lists(x@)[i as int] != char_lists(y@)[i as int]);
            return false;
        }
        i = i + 1;
    }
    assert(char_lists(x@) =~= char_lists(y@));
    true
}

/// The name of the file at a path.
pub fn name_of(path: &str) -> (name: Option<Vec<char>>)
    ensures
        match name {
            Some(n) => file_name(path@) == Some(n@),
            None => file_name(path@) is None,
        },
{
    let all = path_parts(path);
    let len: usize = all.len();
    if len == 0 {
        assert(parts(path@).len() == 0);
        return None;
    }
    let last = &all[len - 1];
    assert(parts(path@).last() == last@);
    let root = to_chars("/");
    let here = to_chars(".");
    let up = to_chars("..");
    if same_chars(last.as_slice(), root.as_slice()) || same_chars(last.as_slice(), here.as_slice())
        || same_chars(last.as_slice(), up.as_slice()) {
        return None;
    }
    let size: usize = last.len();
    let name = part(last.as_slice(), 0, size);
    assert(name@ =~= last@);
    Some(name)
}

/// A path below a folder has the parts of the folder and then the name, and names the file by
/// it; an absolute path stands for itself.
pub proof fn law_path_below_a_folder(dir: Seq<char>, name: Seq<char>)
    requires
        dir.len() > 0,
        names_something(name),
        !name.contains('/'),
        name != ".."@,
    ensures
        parts(joined_path(dir, name)) == parts(dir).push(name),
        file_name(joined_path(dir, name)) == Some(name),
{
    reveal_strlit("/");
    reveal_strlit(".");
    let sep = Separator::Char { c: '/' };
    let keep = |p: Seq<char>| names_something(p);
    assert(name[0] != '/') by {
        assert(name.contains(name[0]));
    }
    assert forall|i: int| 0 <= i < name.len() implies !separates(sep, #[trigger] name[i]) by {
        assert(name.contains(name[i]));
    }
    lemma_one_piece(name, sep);
    let path = joined_path(dir, name);
    let between = pieces(dir, sep);
    lemma_pieces(dir, sep);
    assert(path[0] == dir[0]);
    reveal(Seq::filter);
    if dir.last() == '/' {
        let inner = dir.drop_last();
        lemma_pieces(inner, sep);
        lemma_pieces_join(inner, '/', name, sep);
        assert(inner.push('/') + name =~= path);
        let front = pieces(inner, sep);
        assert(between == front.push(Seq::empty()));
        assert(between.drop_last() =~= front);
        assert(between.filter(keep) == front.filter(keep));
        let now = pieces(path, sep);
        assert(now =~= front.push(name));
        assert(now.drop_last() =~= front);
        assert(now.filter(keep) == front.filter(keep).push(name));
        assert(now[0] == between[0]);
    } else {
        lemma_pieces_join(dir, '/', name, sep);
        assert(dir.push('/') + name =~= path);
        let now = pieces(path, sep);
        assert(now =~= between.push(name));
        assert(now.drop_last() =~= between);
        assert(now.filter(keep) == between.filter(keep).push(name));
        assert(now[0] == between[0]);
    }
    assert(parts(path) =~= parts(dir).push(name));
    assert(name != "/"@) by {
        if name == "/"@ {
            assert(name[0] == '/');
        }
    }
}

} // verus!
