//! The course of a scan: rounds of probes over the same candidates, the
//! union of what they find, and the ordered result.
//!
//! The coordinator decides and remembers; it sends nothing itself. Its
//! caller asks for the next step, probes the candidates when told to, and
//! hands the addresses that answered back.

use vstd::prelude::*;
use crate::address::{addressed, last_octet};
use crate::error::ScanError;
use crate::merge::{
    holds, lemma_union_idempotent, lemma_union_members, lemma_union_no_duplicates, merged,
    union_in_order,
};
use crate::sorting::{
    distinct_last_octets, is_ordering_of, lemma_ordering_keeps_members, sort_by_last_octet,
};
use crate::text::texts;

verus! {

/// What the caller of a coordinator is to do next.
#[derive(Clone, Copy, Debug, PartialEq, Eq, Structural)]
pub enum ScanStep {
    /// Probe every candidate once and record who answered.
    Probe,
    /// Nothing is left to do: take the results.
    Done,
}

/// A scan as a mathematical value.
pub struct ScanView {
    /// The addresses to probe.
    pub candidates: Seq<Seq<char>>,
    /// How many rounds were asked for.
    pub rounds: nat,
    /// How many rounds have been recorded.
    pub completed: nat,
    /// The addresses that answered in some recorded round, each once, in
    /// the order in which they were first recorded.
    pub found: Seq<Seq<char>>,
}

impl ScanView {
    /// Whether no round is left to run: there is nothing to probe, or all
    /// the rounds asked for have been recorded.
    pub open spec fn finished(self) -> bool {
        self.candidates.len() == 0 || self.completed >= self.rounds
    }

    /// Those of `responded` that are candidates of this scan.
    pub open spec fn admitted(self, responded: Seq<Seq<char>>) -> Seq<Seq<char>> {
        responded.filter(|a: Seq<char>| self.candidates.contains(a))
    }

    /// The scan once a round in which `responded` answered is recorded. A
    /// finished scan records nothing more.
    pub open spec fn after_round(self, responded: Seq<Seq<char>>) -> ScanView {
        if self.finished() {
            self
        } else {
            ScanView {
                candidates: self.candidates,
                rounds: self.rounds,
                completed: self.completed + 1,
                found: union_in_order(self.found, self.admitted(responded)),
            }
        }
    }

    /// What holds of every scan: at least one round was asked for and no
    /// more were recorded; every candidate has a last octet; what was
    /// found is found once and is a candidate.
    pub open spec fn wf(self) -> bool {
        &&& 0 < self.rounds
        &&& self.completed <= self.rounds
        &&& addressed(self.candidates)
        &&& self.found.no_duplicates()
        &&& forall|i: int|
            0 <= i < self.found.len() ==> self.candidates.contains(#[trigger] self.found[i])
    }
}

/// Recording a round keeps a scan well formed.
pub proof fn lemma_round_keeps_wf(scan: ScanView, responded: Seq<Seq<char>>)
    requires
        scan.wf(),
    ensures
        scan.after_round(responded).wf(),
{
    if !scan.finished() {
        let admitted = scan.admitted(responded);
        let next = scan.after_round(responded);
        lemma_union_no_duplicates(scan.found, admitted);
        lemma_union_members(scan.found, admitted);
        assert forall|i: int| 0 <= i < next.found.len() implies scan.candidates.contains(
            #[trigger] next.found[i],
        ) by {
            let x = next.found[i];
            assert(next.found.contains(x));
            if scan.found.contains(x) {
                let j = choose|j: int| 0 <= j < scan.found.len() && scan.found[j] == x;
            } else {
                responded.lemma_filter_contains_rev(
                    |a: Seq<char>| scan.candidates.contains(a),
                    x,
                );
            }
        }
    }
}

/// Recording the same round a second time finds nothing new.
pub proof fn lemma_same_round_twice(scan: ScanView, responded: Seq<Seq<char>>)
    ensures
        scan.after_round(responded).after_round(responded).found == scan.after_round(
            responded,
        ).found,
{
    if !scan.finished() {
        lemma_union_idempotent(scan.found, scan.admitted(responded));
    }
}

/// Rounds only add: what was found before a round is found after it, and
/// in the same place.
pub proof fn lemma_rounds_only_add(scan: ScanView, responded: Seq<Seq<char>>)
    ensures
        scan.after_round(responded).found.len() >= scan.found.len(),
        scan.after_round(responded).found.take(scan.found.len() as int) == scan.found,
        forall|x: Seq<char>|
            scan.found.contains(x) ==> #[trigger] scan.after_round(responded).found.contains(x),
{
    if !scan.finished() {
        lemma_union_members(scan.found, scan.admitted(responded));
    }
}

/// The ordered result after one more round holds every address of the
/// ordered result before it.
pub proof fn lemma_results_only_grow(
    scan: ScanView,
    responded: Seq<Seq<char>>,
    before: Seq<Seq<char>>,
    after: Seq<Seq<char>>,
    x: Seq<char>,
)
    requires
        scan.wf(),
        is_ordering_of(before, scan.found),
        is_ordering_of(after, scan.after_round(responded).found),
        before.contains(x),
    ensures
        after.contains(x),
{
    lemma_round_keeps_wf(scan, responded);
    lemma_ordering_keeps_members(before, scan.found, x);
    lemma_rounds_only_add(scan, responded);
    lemma_ordering_keeps_members(after, scan.after_round(responded).found, x);
}

/// A scan without candidates is finished from the start, finds nothing,
/// and stays as it is whatever is recorded.
pub proof fn lemma_nothing_to_scan(scan: ScanView, responded: Seq<Seq<char>>)
    requires
        scan.wf(),
        scan.candidates.len() == 0,
    ensures
        scan.finished(),
        scan.found.len() == 0,
        scan.after_round(responded) == scan,
{
    if scan.found.len() > 0 {
        assert(scan.candidates.contains(scan.found[0]));
    }
}

/// In a well-formed scan every found address has a last octet.
pub proof fn lemma_found_addressed(scan: ScanView)
    requires
        scan.wf(),
    ensures
        addressed(scan.found),
{
    assert forall|i: int| 0 <= i < scan.found.len() implies last_octet(
        #[trigger] scan.found[i],
    ) is Some by {
        let x = scan.found[i];
        let j = choose|j: int| 0 <= j < scan.candidates.len() && scan.candidates[j] == x;
    }
}

/// Where no two candidates share a last octet, no two found addresses do.
pub proof fn lemma_found_distinct(scan: ScanView)
    requires
        scan.wf(),
        distinct_last_octets(scan.candidates),
    ensures
        distinct_last_octets(scan.found),
{
    let found = scan.found;
    assert forall|i: int, j: int|
        0 <= i < found.len() && 0 <= j < found.len() && i != j implies last_octet(
        #[trigger] found[i],
    ) != last_octet(#[trigger] found[j]) by {
        let a = choose|a: int| 0 <= a < scan.candidates.len() && scan.candidates[a] == found[i];
        let b = choose|b: int| 0 <= b < scan.candidates.len() && scan.candidates[b] == found[j];
    }
}

/// Those of `responded` that `candidates` holds, in order.
fn candidates_among(candidates: &Vec<String>, responded: &Vec<String>) -> (admitted: Vec<String>)
    ensures
        texts(admitted@) == texts(responded@).filter(
            |a: Seq<char>| texts(candidates@).contains(a),
        ),
{
    let ghost known = |a: Seq<char>| texts(candidates@).contains(a);
    let mut admitted: Vec<String> = Vec::new();
    let mut i: usize = 0;
    while i < responded.len()
        invariant
            i <= responded.len(),
            known == |a: Seq<char>| texts(candidates@).contains(a),
            texts(admitted@) == texts(responded@).take(i as int).filter(known),
        decreases responded.len() - i,
    {
        proof {
            assert(texts(responded@).take(i + 1).drop_last() =~= texts(responded@).take(i as int));
            reveal_with_fuel(Seq::filter, 2);
        }
        if holds(candidates, &responded[i]) {
            admitted.push(responded[i].clone());
        }
        i += 1;
    }
    proof {
        assert(texts(responded@).take(i as int) =~= texts(responded@));
    }
    admitted
}

/// The coordinator of one scan.
pub struct ScanCoordinator {
    addresses: Vec<String>,
    rounds: u8,
    completed: u8,
    found: Vec<String>,
}

impl View for ScanCoordinator {
    type V = ScanView;

    closed spec fn view(&self) -> ScanView {
        ScanView {
            candidates: texts(self.addresses@),
            rounds: self.rounds as nat,
            completed: self.completed as nat,
            found: texts(self.found@),
        }
    }
}

impl ScanCoordinator {
    #[verifier::type_invariant]
    spec fn valid(&self) -> bool {
        self@.wf()
    }

    /// Starts a scan of `addresses` in `rounds` rounds. Zero rounds are
    /// refused: a scan that attempts nothing is not a scan that finds
    /// nothing.
    pub fn new(addresses: Vec<String>, rounds: u8) -> (r: Result<ScanCoordinator, ScanError>)
        requires
            addressed(texts(addresses@)),
        ensures
            r is Err <==> rounds == 0,
            r matches Err(e) ==> e == ScanError::ConfigError,
            r matches Ok(scan) ==> scan@.wf() && scan@ == (ScanView {
                candidates: texts(addresses@),
                rounds: rounds as nat,
                completed: 0,
                found: Seq::<Seq<char>>::empty(),
            }),
    {
        if rounds == 0 {
            return Err(ScanError::ConfigError);
        }
        let found: Vec<String> = Vec::new();
        assert(texts(found@) =~= Seq::<Seq<char>>::empty());
        Ok(ScanCoordinator { addresses, rounds, completed: 0, found })
    }

    /// The addresses to probe in each round.
    pub fn addresses(&self) -> (candidates: &Vec<String>)
        ensures
            texts(candidates@) == self@.candidates,
    {
        &self.addresses
    }

    /// What to do next: probe, unless the scan is finished.
    pub fn next_step(&self) -> (step: ScanStep)
        ensures
            self@.wf(),
            step is Done <==> self@.finished(),
    {
        proof {
            use_type_invariant(self);
        }
        if self.addresses.len() == 0 || self.completed >= self.rounds {
            ScanStep::Done
        } else {
            ScanStep::Probe
        }
    }

    /// Records one round: the candidates among `responded` that were not
    /// found before are now found. A finished scan stays as it is.
    pub fn record_round(&mut self, responded: &Vec<String>)
        ensures
            final(self)@ == old(self)@.after_round(texts(responded@)),
            final(self)@.wf(),
    {
        proof {
            use_type_invariant(&*self);
        }
        if self.addresses.len() == 0 || self.completed >= self.rounds {
            return ;
        }
        let admitted = candidates_among(&self.addresses, responded);
        proof {
            lemma_round_keeps_wf(self@, texts(responded@));
        }
        self.found = merged(&self.found, &admitted);
        self.completed = self.completed + 1;
    }

    /// The addresses found so far, in order of last octet; those that
    /// share a last octet stand in the order in which they were found.
    pub fn results(&self) -> (result: Vec<String>)
        ensures
            is_ordering_of(texts(result@), self@.found),
            texts(result@).to_multiset() == self@.found.to_multiset(),
            result@.len() == self@.found.len(),
    {
        proof {
            use_type_invariant(self);
            lemma_found_addressed(self@);
        }
        sort_by_last_octet(&self.found)
    }
}

} // verus!
