//! What is made of how an outside tool went.
use crate::text::{
    contains, decimal, ends_with, from_chars, has_suffix, join, joined, lines, occurs,
    push_decimal, split_lines, strings, to_chars, trim, trim_back, trim_end, trimmed,
};
use vstd::prelude::*;
use vstd::string::*;

verus! {

/// The file name of a program where programs have this suffix.
pub fn with_exe_suffix(name: &str, suffix: &str) -> (s: String)
    ensures
        s@ == if has_suffix(name@, suffix@) {
            name@
        } else {
            name@ + suffix@
        },
{
    let chars = to_chars(name);
    let mut s = name.to_owned();
    if !ends_with(chars.as_slice(), suffix) {
        s.append(suffix);
    }
    s
}

/// The last lines of a list.
pub open spec fn last_of(list: Seq<Seq<char>>, n: int) -> Seq<Seq<char>> {
    if list.len() <= n {
        list
    } else {
        list.subrange(list.len() - n, list.len() as int)
    }
}

/// The last fifteen lines of what a tool said, behind a colon; nothing if it said nothing.
pub open spec fn last_words(text: Seq<char>) -> Seq<char> {
    let said = trim_end(text);
    if said.len() == 0 {
        Seq::empty()
    } else {
        ":\n"@ + joined(last_of(lines(said), 15), "\n"@)
    }
}

/// What the tool said before it was killed, as the end of the timeout's message.
pub fn last_output(text: &str) -> (s: String)
    ensures
        s@ == last_words(text@),
{
    let chars = to_chars(text);
    let said = trim_back(chars.as_slice());
    let mut s = String::new();
    if said.len() == 0 {
        assert(s@ =~= last_words(text@));
        return s;
    }
    let all = split_lines(said.as_slice());
    let ghost views = crate::text::char_lists(all@);
    let n: usize = all.len();
    let from: usize = if n <= 15 {
        0
    } else {
        n - 15
    };
    let mut tail: Vec<String> = Vec::new();
    let mut i: usize = from;
    while i < n
        invariant
            from <= i <= n == all@.len(),
            views == crate::text::char_lists(all@),
            tail@.len() == i - from,
            forall|k: int| 0 <= k < tail@.len() ==> (#[trigger] tail@[k])@ == views[from + k],
        decreases n - i,
    {
        assert(views[i as int] == all@[i as int]@);
        tail.push(from_chars(all[i].as_slice()));
        i = i + 1;
    }
    assert(strings(tail@) =~= last_of(views, 15));
    s.append(":\n");
    s.append(join(tail.as_slice(), "\n").as_str());
    assert(s@ =~= last_words(text@));
    s
}

/// What a tool that did not finish in time is reported with.
pub fn timeout_message(what: &str, secs: u64, said: &str) -> (s: String)
    ensures
        s@ == what@ + " did not finish within "@ + decimal(secs as nat) + "s - killed"@
            + last_words(said@),
{
    let mut s = what.to_owned();
    s.append(" did not finish within ");
    push_decimal(&mut s, secs);
    s.append("s - killed");
    s.append(last_output(said).as_str());
    s
}

/// How a tool failed.
#[derive(Debug)]
pub struct ToolError {
    pub message: String,
    /// The failure clears on its own.
    pub transient: bool,
}

/// What is done about a tool that was looked after.
#[derive(Clone, Copy, Debug, PartialEq, Eq, Structural)]
pub enum ToolStep {
    /// It has ended.
    Done,
    /// It is looked after again a little later.
    Wait,
    /// Its time is up.
    Kill,
}

/// What is done about a tool: one that has ended in time, or just after it, is never killed.
pub fn look(exited: bool, past_deadline: bool) -> (s: ToolStep)
    ensures
        s == if exited {
            ToolStep::Done
        } else if past_deadline {
            ToolStep::Kill
        } else {
            ToolStep::Wait
        },
{
    if exited {
        ToolStep::Done
    } else if past_deadline {
        ToolStep::Kill
    } else {
        ToolStep::Wait
    }
}

/// The error for a tool that was killed because it did not finish in time; always one that
/// passes, as a share that stopped answering or a GPU in reset comes back.
pub fn timeout_error(what: &str, secs: u64, said: &str) -> (e: ToolError)
    ensures
        e.transient,
        e.message@ == what@ + " did not finish within "@ + decimal(secs as nat) + "s - killed"@
            + last_words(said@),
{
    ToolError { message: timeout_message(what, secs, said), transient: true }
}

/// Whether a tool was stopped from outside, as by Ctrl-C or for want of memory: hangup,
/// interrupt, kill or termination. One that crashed was not.
pub open spec fn outside_signal(signal: Option<i32>) -> bool {
    signal == Some(1i32) || signal == Some(2i32) || signal == Some(9i32) || signal == Some(15i32)
}

pub fn stopped_from_outside(signal: Option<i32>) -> (r: bool)
    ensures
        r == outside_signal(signal),
{
    match signal {
        Some(n) => n == 1 || n == 2 || n == 9 || n == 15,
        None => false,
    }
}

/// Whether a tool found no space to write to.
pub open spec fn no_space(message: Seq<char>) -> bool {
    occurs(message, "No space left on device"@) || occurs(message, "ENOSPC"@) || occurs(
        message,
        "Disk quota exceeded"@,
    ) || occurs(message, "EDQUOT"@)
}

pub fn out_of_space(message: &str) -> (r: bool)
    ensures
        r == no_space(message@),
{
    let chars = to_chars(message);
    contains(chars.as_slice(), "No space left on device") || contains(chars.as_slice(), "ENOSPC")
        || contains(chars.as_slice(), "Disk quota exceeded") || contains(chars.as_slice(), "EDQUOT")
}

/// The error for a tool that ran and failed, by the signal that ended it, if any, and by what
/// it said.
pub fn tool_error(what: &str, signal: Option<i32>, message: &str) -> (e: ToolError)
    ensures
        e.message@ == what@ + " failed:\n"@ + trimmed(message@),
        e.transient == (outside_signal(signal) || no_space(message@)),
{
    let chars = to_chars(message);
    let inner = trim(chars.as_slice());
    let mut s = what.to_owned();
    s.append(" failed:\n");
    s.append(from_chars(inner.as_slice()).as_str());
    ToolError { message: s, transient: stopped_from_outside(signal) || out_of_space(message) }
}

/// What is kept of what a tool said is its end, and at most as many lines as there may be.
pub proof fn law_last_lines_are_kept(list: Seq<Seq<char>>, n: int, i: int)
    requires
        0 <= n,
        0 <= i < last_of(list, n).len(),
    ensures
        last_of(list, n).len() <= n || last_of(list, n) == list,
        last_of(list, n).len() == list.len() || last_of(list, n).len() == n,
        last_of(list, n)[last_of(list, n).len() - 1 - i] == list[list.len() - 1 - i],
{
}

} // verus!
