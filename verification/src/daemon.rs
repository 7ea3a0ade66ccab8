//! The scan loop and its surroundings.
use crate::text::{decimal, law_decimal_round_trip, parse_unsigned, str_of, to_chars, unsigned};
use vstd::prelude::*;
use vstd::string::*;

verus! {

/// What a panic said: its message may be a literal or a string of its own.
pub fn panic_message<'a>(literal: Option<&'a str>, owned: Option<&'a str>) -> (s: &'a str)
    ensures
        s@ == match (str_of(literal), str_of(owned)) {
            (Some(t), _) => t,
            (None, Some(t)) => t,
            (None, None) => "no message"@,
        },
{
    match literal {
        Some(t) => t,
        None => match owned {
            Some(t) => t,
            None => "no message",
        },
    }
}

/// The number that a variable gives, or the default where it is not set or is no number; the
/// second part tells whether it was set to something else than a number.
pub open spec fn number_or(value: Option<Seq<char>>, default: u64) -> (nat, bool) {
    match value {
        None => (default as nat, false),
        Some(v) => match unsigned(v, u64::MAX as nat) {
            Some(n) => (n, false),
            None => (default as nat, true),
        },
    }
}

pub fn env_u64(value: Option<&str>, default: u64) -> (r: (u64, bool))
    ensures
        (r.0 as nat, r.1) == number_or(str_of(value), default),
{
    match value {
        None => (default, false),
        Some(v) => {
            let chars = to_chars(v);
            match parse_unsigned(chars.as_slice(), 0xffff_ffff_ffff_ffff) {
                Some(n) => (n, false),
                None => (default, true),
            }
        },
    }
}

/// The seconds between two scans: at least one.
pub fn poll_interval(value: Option<&str>) -> (secs: u64)
    ensures
        secs == if number_or(str_of(value), 60).0 < 1 {
            1
        } else {
            number_or(str_of(value), 60).0
        },
{
    let (n, _) = env_u64(value, 60);
    if n < 1 {
        1
    } else {
        n
    }
}

/// Where the scan loop stands.
#[derive(Clone, Copy, Debug, PartialEq, Eq, Structural)]
pub struct ScanLoop {
    /// The seconds between two scans.
    pub poll: u64,
    /// How many jobs the last scan found.
    pub queued: usize,
    /// The job that runs, of those.
    pub running: usize,
    /// The seconds that have passed since the last job, or since a scan without one.
    pub slept: u64,
}

/// What happened.
#[derive(Clone, Copy, Debug, PartialEq, Eq, Structural)]
pub enum Event {
    /// A scan found this many jobs; none where it failed.
    Scanned { jobs: usize },
    /// The job that ran has ended.
    JobEnded { failed: bool },
    /// A second has passed.
    Slept,
}

/// What is done next.
#[derive(Clone, Copy, Debug, PartialEq, Eq, Structural)]
pub enum Next {
    Scan,
    Run { job: usize },
    /// For one second.
    Sleep,
    /// The service ends.
    Stop,
}

/// What follows an event, and where the loop stands then. A signal to stop counts before a
/// job, behind one and behind each second, so that it ends the service between two jobs and
/// never in the middle of one.
pub open spec fn stepped(s: ScanLoop, event: Event, stopping: bool) -> (ScanLoop, Next) {
    match event {
        Event::Scanned { jobs } => {
            let fresh = ScanLoop { queued: jobs, running: 0, slept: 0, ..s };
            (
                fresh,
                if jobs == 0 {
                    Next::Sleep
                } else if stopping {
                    Next::Stop
                } else {
                    Next::Run { job: 0 }
                },
            )
        },
        Event::JobEnded { .. } => if stopping {
            (s, Next::Stop)
        } else if s.running + 1 < s.queued {
            (
                ScanLoop { running: (s.running + 1) as usize, ..s },
                Next::Run { job: (s.running + 1) as usize },
            )
        } else {
            (ScanLoop { slept: 0, ..s }, Next::Sleep)
        },
        Event::Slept => if stopping {
            (s, Next::Stop)
        } else if s.slept + 1 < s.poll {
            (ScanLoop { slept: (s.slept + 1) as u64, ..s }, Next::Sleep)
        } else {
            (s, Next::Scan)
        },
    }
}

impl ScanLoop {
    /// The loop before its first scan.
    pub fn new(poll: u64) -> (s: ScanLoop)
        ensures
            s == (ScanLoop { poll, queued: 0, running: 0, slept: 0 }),
    {
        ScanLoop { poll, queued: 0, running: 0, slept: 0 }
    }

    /// What follows an event. A job that failed counts as one that ended.
    pub fn after(&mut self, event: Event, stopping: bool) -> (n: Next)
        ensures
            (*final(self), n) == stepped(*old(self), event, stopping),
    {
        match event {
            Event::Scanned { jobs } => {
                self.queued = jobs;
                self.running = 0;
                self.slept = 0;
                if jobs == 0 {
                    Next::Sleep
                } else if stopping {
                    Next::Stop
                } else {
                    Next::Run { job: 0 }
                }
            },
            Event::JobEnded { failed: _ } => {
                if stopping {
                    Next::Stop
                } else if self.running < self.queued && self.queued - self.running > 1 {
                    self.running = self.running + 1;
                    Next::Run { job: self.running }
                } else {
                    self.slept = 0;
                    Next::Sleep
                }
            },
            Event::Slept => {
                if stopping {
                    Next::Stop
                } else if self.slept < self.poll && self.poll - self.slept > 1 {
                    self.slept = self.slept + 1;
                    Next::Sleep
                } else {
                    Next::Scan
                }
            },
        }
    }
}

/// Once the service is to stop, no job starts and no scan: it stops behind whatever happened,
/// a scan that found nothing excepted, which is followed by one second first.
pub proof fn law_nothing_starts_while_stopping(s: ScanLoop, event: Event)
    ensures
        ({
            let (t, n) = stepped(s, event, true);
            &&& n == Next::Stop || event == (Event::Scanned { jobs: 0 }) && n == Next::Sleep
            &&& stepped(t, Event::Slept, true).1 == Next::Stop
        }),
{
}

/// A job that failed is followed by what follows one that did not, and without a signal the
/// service never stops.
pub proof fn law_a_failed_job_stops_nothing(s: ScanLoop, event: Event, stopping: bool)
    ensures
        stepped(s, Event::JobEnded { failed: true }, stopping) == stepped(
            s,
            Event::JobEnded { failed: false },
            stopping,
        ),
        stepped(s, event, false).1 != Next::Stop,
{
}

/// Where the loop stands after a scan and the end of these jobs, and what is done next.
pub open spec fn after_jobs(s: ScanLoop, jobs: usize, failed: Seq<bool>) -> (ScanLoop, Next)
    decreases failed.len(),
{
    if failed.len() == 0 {
        stepped(s, Event::Scanned { jobs }, false)
    } else {
        stepped(
            after_jobs(s, jobs, failed.drop_last()).0,
            Event::JobEnded { failed: failed.last() },
            false,
        )
    }
}

/// Every job that a scan found is run, one after the other, whichever of them failed; then
/// the service rests.
pub proof fn law_every_queued_job_is_run(s: ScanLoop, jobs: usize, failed: Seq<bool>)
    requires
        failed.len() <= jobs,
    ensures
        after_jobs(s, jobs, failed).1 == if failed.len() < jobs {
            Next::Run { job: failed.len() as usize }
        } else {
            Next::Sleep
        },
        failed.len() < jobs ==> after_jobs(s, jobs, failed).0.running == failed.len(),
        after_jobs(s, jobs, failed).0.queued == jobs,
    decreases failed.len(),
{
    if failed.len() > 0 {
        law_every_queued_job_is_run(s, jobs, failed.drop_last());
    }
}

/// Where the loop stands after it slept for these seconds, and what is done next.
pub open spec fn after_rest(s: ScanLoop, seconds: nat) -> (ScanLoop, Next)
    decreases seconds,
{
    if seconds == 0 {
        (s, Next::Sleep)
    } else {
        stepped(after_rest(s, (seconds - 1) as nat).0, Event::Slept, false)
    }
}

/// The service rests as long as it was told to, from the end of the last job or a scan that
/// found none on, and then scans again.
pub proof fn law_service_rests_between_scans(s: ScanLoop, seconds: nat)
    requires
        s.slept == 0,
        s.poll >= 1,
        seconds <= s.poll,
    ensures
        after_rest(s, seconds).1 == if seconds < s.poll {
            Next::Sleep
        } else {
            Next::Scan
        },
        seconds < s.poll ==> after_rest(s, seconds).0 == (ScanLoop { slept: seconds as u64, ..s }),
        stepped(s, Event::Scanned { jobs: 0 }, false).0.slept == 0,
        s.running + 1 >= s.queued ==> stepped(s, Event::JobEnded { failed: false }, false).0.slept
            == 0,
    decreases seconds,
{
    if seconds > 0 {
        law_service_rests_between_scans(s, (seconds - 1) as nat);
    }
}

/// A number reads as it is written; what is none, or is missing, leaves the default.
pub proof fn law_set_numbers_count(n: u64, default: u64)
    ensures
        number_or(Some(decimal(n as nat)), default) == (n as nat, false),
        number_or(None, default) == (default as nat, false),
{
    law_decimal_round_trip(n as nat, u64::MAX as nat);
}

} // verus!
