//! The candidate addresses of an input: one for every last octet in its
//! range, in ascending order.

use vstd::prelude::*;
use vstd::string::*;
use crate::address::{
    address_text, addressed, last_octet, lemma_address_round_trip, prefix_octets, prefix_text,
};
use crate::input::{InputIp, InputIpView};
use crate::octet::push_octet;
use crate::sorting::distinct_last_octets;
use crate::text::texts;

verus! {

/// How many addresses `input` covers: none if its range is empty or
/// inverted.
pub open spec fn candidate_count(input: InputIpView) -> nat {
    if input.start < input.end {
        (input.end - input.start) as nat
    } else {
        0
    }
}

/// The address that stands at place `k` among the candidates of `input`.
pub open spec fn candidate(input: InputIpView, k: int) -> Seq<char> {
    address_text(prefix_text(input.prefix), (input.start + k) as u8)
}

/// The candidate addresses of `input`: its prefix with every last octet
/// from `start` up to `end`, without `end`.
pub open spec fn candidates(input: InputIpView) -> Seq<Seq<char>> {
    Seq::new(candidate_count(input), |k: int| candidate(input, k))
}

/// The candidates are as many as the range has octets; each reads back as
/// the prefix and as its own last octet, which is `start` plus its place,
/// so that the last octets ascend strictly and no address comes twice.
pub proof fn lemma_candidates(input: InputIpView)
    ensures
        candidates(input).len() == candidate_count(input),
        addressed(candidates(input)),
        candidates(input).no_duplicates(),
        distinct_last_octets(candidates(input)),
        forall|k: int|
            0 <= k < candidates(input).len() ==> {
                &&& prefix_octets(#[trigger] candidates(input)[k]) == Some(input.prefix)
                &&& last_octet(candidates(input)[k]) == Some((input.start + k) as u8)
                &&& input.start + k < input.end
            },
        forall|j: int, k: int|
            0 <= j < k < candidates(input).len() ==> last_octet(
                #[trigger] candidates(input)[j],
            )->0 < last_octet(#[trigger] candidates(input)[k])->0,
{
    let all = candidates(input);
    assert forall|k: int| 0 <= k < all.len() implies {
        &&& prefix_octets(#[trigger] all[k]) == Some(input.prefix)
        &&& last_octet(all[k]) == Some((input.start + k) as u8)
        &&& input.start + k < input.end
    } by {
        lemma_address_round_trip(input.prefix, (input.start + k) as u8);
    }
    assert forall|j: int, k: int| 0 <= j < k < all.len() implies last_octet(
        #[trigger] all[j],
    )->0 < last_octet(#[trigger] all[k])->0 by {}
    assert forall|j: int, k: int| 0 <= j < all.len() && 0 <= k < all.len() && j != k implies all[j]
        != all[k] && last_octet(#[trigger] all[j]) != last_octet(#[trigger] all[k]) by {}
}

/// A list of candidate addresses.
pub struct IpAddressRange {
    pub ip_addresses: Vec<String>,
}

impl IpAddressRange {
    /// An empty list.
    pub fn new() -> (range: IpAddressRange)
        ensures
            range.ip_addresses@.len() == 0,
    {
        let v: Vec<String> = Vec::new();
        IpAddressRange { ip_addresses: v }
    }

    /// Replaces the list by the candidates of `ip_input`.
    pub fn generate(&mut self, ip_input: &InputIp)
        ensures
            texts(final(self).ip_addresses@) == candidates(ip_input@),
            addressed(texts(final(self).ip_addresses@)),
    {
        self.ip_addresses.clear();
        let ip_prefix = ip_input.to_string();
        let range = ip_input.scan_range();
        let ghost all = candidates(ip_input@);
        proof {
            lemma_candidates(ip_input@);
        }
        let mut i: u8 = range.start;
        while i < range.end
            invariant
                range.start == ip_input@.start,
                range.end == ip_input@.end,
                range.start <= i,
                range.start < range.end ==> i <= range.end,
                ip_prefix@ == prefix_text(ip_input@.prefix),
                all == candidates(ip_input@),
                i - range.start <= all.len(),
                texts(self.ip_addresses@) == all.take(i - range.start),
            decreases range.end - i,
        {
            let mut ip_address: String = ip_prefix.clone();
            ip_address.append(".");
            push_octet(&mut ip_address, i);
            let ghost before = texts(self.ip_addresses@);
            self.ip_addresses.push(ip_address);
            proof {
                let k = i - range.start;
                reveal_strlit(".");
                assert(ip_address@ =~= candidate(ip_input@, k));
                assert(texts(self.ip_addresses@) =~= before.push(ip_address@));
            }
            i += 1;
        }
    }

    /// How many addresses the list holds.
    pub fn ip_count(&self) -> (count: usize)
        ensures
            count == self.ip_addresses@.len(),
    {
        self.ip_addresses.len()
    }
}

} // verus!
