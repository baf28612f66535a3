//! One probe: what is asked of the ping facility, and what its first word
//! says of the address. One round: the addresses that answered.

use std::time::Duration;
use vstd::prelude::*;
use vstd::string::*;
use crate::merge::{holds, union_in_order};
use crate::octet::{octet_text, push_octet};
use crate::text::texts;

verus! {

/// What probing one address came to.
#[derive(Clone, Copy, Debug, PartialEq, Eq, Structural)]
pub enum ProbeOutcome {
    /// An echo reply came back in time.
    Reachable,
    /// No reply came back in time, or something other than a reply did.
    Unreachable,
    /// The probe could not be sent at all.
    ProbeError,
}

/// The first thing the ping facility had to say about one probe.
#[derive(Debug, PartialEq, Eq)]
pub enum PingEvent {
    /// The ping could not be started.
    NotStarted,
    /// The ping was started and ended without a word.
    Silent,
    /// An echo reply.
    Pong,
    /// The wait for a reply ran out.
    Timeout,
    /// A line that is neither a reply nor a timeout.
    Unknown,
    /// The ping ended before it reported anything else; `stderr` is what
    /// it wrote to its error stream.
    Exited { stderr: String },
}

/// The family of ping programs, which differ in how the number of echo
/// requests is passed.
#[derive(Clone, Copy, Debug, PartialEq, Eq, Structural)]
pub enum Platform {
    Windows,
    Unix,
}

/// What is asked of the ping facility for one probe.
#[derive(Debug)]
pub struct PingRequest {
    pub target: String,
    pub interval: Duration,
    pub raw_arguments: Vec<String>,
}

/// One address and what probing it came to.
#[derive(Debug)]
pub struct ProbeReport {
    pub address: String,
    pub outcome: ProbeOutcome,
}

/// The option by which a ping program of `platform` takes the number of
/// echo requests.
pub open spec fn count_flag(platform: Platform) -> Seq<char> {
    match platform {
        Platform::Windows => seq!['-', 'n'],
        Platform::Unix => seq!['-', 'c'],
    }
}

/// The addresses reported reachable, each once, in the order they first
/// appear in `reports`.
pub open spec fn responders(reports: Seq<ProbeReport>) -> Seq<Seq<char>> {
    union_in_order(
        Seq::<Seq<char>>::empty(),
        reports.filter(|r: ProbeReport| r.outcome is Reachable).map_values(
            |r: ProbeReport| r.address@,
        ),
    )
}

/// Whether `event` tells of a ping that was never sent: it could not be
/// started, it ended without a word, or it ended with an error message.
pub open spec fn not_sent(event: PingEvent) -> bool {
    match event {
        PingEvent::NotStarted => true,
        PingEvent::Silent => true,
        PingEvent::Exited { stderr } => stderr@.len() > 0,
        _ => false,
    }
}

/// Classifies a probe by the first event of its ping: a reply makes the
/// address reachable; a ping that was never sent is a probe error; all
/// else is unreachable.
pub fn classify(event: &PingEvent) -> (outcome: ProbeOutcome)
    ensures
        outcome is Reachable <==> event is Pong,
        outcome is ProbeError <==> not_sent(*event),
{
    match event {
        PingEvent::Pong => ProbeOutcome::Reachable,
        PingEvent::Timeout | PingEvent::Unknown => ProbeOutcome::Unreachable,
        PingEvent::Exited { stderr } => if stderr.as_str().is_empty() {
            ProbeOutcome::Unreachable
        } else {
            ProbeOutcome::ProbeError
        },
        PingEvent::NotStarted | PingEvent::Silent => ProbeOutcome::ProbeError,
    }
}

/// The request for a ping of `ip_address` that sends `ping_count` echo
/// requests, `interval` apart.
pub fn ping_options(
    ping_count: u8,
    interval: Duration,
    ip_address: &str,
    platform: Platform,
) -> (request: PingRequest)
    ensures
        request.target@ == ip_address@,
        request.interval == interval,
        texts(request.raw_arguments@) == seq![count_flag(platform), octet_text(ping_count)],
{
    proof {
        reveal_strlit("-n");
        reveal_strlit("-c");
    }
    let flag: String = match platform {
        Platform::Windows => String::from_str("-n"),
        Platform::Unix => String::from_str("-c"),
    };
    assert(flag@ =~= count_flag(platform));
    let mut count: String = String::new();
    push_octet(&mut count, ping_count);
    let mut raw_arguments: Vec<String> = Vec::new();
    raw_arguments.push(flag);
    raw_arguments.push(count);
    PingRequest { target: String::from_str(ip_address), interval, raw_arguments }
}

/// The addresses that one round found reachable: those reported so, each
/// once, in the order of their first report.
pub fn reachable_addresses(reports: &Vec<ProbeReport>) -> (reachable: Vec<String>)
    ensures
        texts(reachable@) == responders(reports@),
{
    let mut reachable: Vec<String> = Vec::new();
    let mut i: usize = 0;
    let ghost answered = |r: ProbeReport| r.outcome is Reachable;
    let ghost named = |r: ProbeReport| r.address@;
    while i < reports.len()
        invariant
            i <= reports.len(),
            answered == |r: ProbeReport| r.outcome is Reachable,
            named == |r: ProbeReport| r.address@,
            texts(reachable@) == responders(reports@.take(i as int)),
        decreases reports.len() - i,
    {
        let ghost seen = reports@.take(i as int);
        let ghost more = reports@.take(i + 1);
        proof {
            assert(more.drop_last() =~= seen);
            reveal_with_fuel(Seq::filter, 2);
        }
        match reports[i].outcome {
            ProbeOutcome::Reachable => {
                proof {
                    let known = seen.filter(answered).map_values(named);
                    let grown = more.filter(answered).map_values(named);
                    assert(grown =~= known.push(reports@[i as int].address@));
                    assert(grown.drop_last() =~= known);
                }
                if !holds(&reachable, &reports[i].address) {
                    reachable.push(reports[i].address.clone());
                }
            },
            _ => {},
        }
        i += 1;
    }
    proof {
        assert(reports@.take(i as int) =~= reports@);
    }
    reachable
}

} // verus!
