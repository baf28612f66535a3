//! Addresses as dotted text: a prefix of three octets and a last octet.

use vstd::prelude::*;
use crate::dotted::{
    components, lemma_components_of_dot_free, lemma_components_of_joined, split_dots,
};
use crate::octet::{is_digit, lemma_octet_round_trip, octet_text, octet_value, parse_octet};
use crate::text::chars_of;

verus! {

/// The dotted text of a prefix: its three octets with full stops between.
pub open spec fn prefix_text(prefix: (u8, u8, u8)) -> Seq<char> {
    octet_text(prefix.0) + seq!['.'] + octet_text(prefix.1) + seq!['.'] + octet_text(prefix.2)
}

/// The text of the address under the prefix written `prefix` whose last
/// octet is `last`.
pub open spec fn address_text(prefix: Seq<char>, last: u8) -> Seq<char> {
    prefix + seq!['.'] + octet_text(last)
}

/// The octets of a prefix text: there are at least three components, every
/// component writes an octet, and the first three are the prefix.
pub open spec fn prefix_octets(text: Seq<char>) -> Option<(u8, u8, u8)> {
    let parts = components(text);
    if parts.len() >= 3 && (forall|i: int|
        0 <= i < parts.len() ==> octet_value(#[trigger] parts[i]) is Some) {
        Some((octet_value(parts[0])->0, octet_value(parts[1])->0, octet_value(parts[2])->0))
    } else {
        None
    }
}

/// The last octet of an address: what its fourth component writes.
pub open spec fn last_octet(address: Seq<char>) -> Option<u8> {
    let parts = components(address);
    if parts.len() > 3 {
        octet_value(parts[3])
    } else {
        None
    }
}

/// Whether every text of `s` has a last octet.
pub open spec fn addressed(s: Seq<Seq<char>>) -> bool {
    forall|i: int| 0 <= i < s.len() ==> last_octet(#[trigger] s[i]) is Some
}

/// The text of an octet is a single component.
pub proof fn lemma_octet_is_component(n: u8)
    ensures
        components(octet_text(n)) == seq![octet_text(n)],
{
    lemma_octet_round_trip(n);
    let t = octet_text(n);
    assert forall|i: int| 0 <= i < t.len() implies #[trigger] t[i] != '.' by {
        assert(is_digit(t[i]));
    }
    lemma_components_of_dot_free(t);
}

/// The components of a prefix text are the texts of its three octets.
pub proof fn lemma_prefix_components(prefix: (u8, u8, u8))
    ensures
        components(prefix_text(prefix)) == seq![
            octet_text(prefix.0),
            octet_text(prefix.1),
            octet_text(prefix.2),
        ],
{
    let a = octet_text(prefix.0);
    let b = octet_text(prefix.1);
    let c = octet_text(prefix.2);
    lemma_octet_is_component(prefix.0);
    lemma_octet_is_component(prefix.1);
    lemma_octet_is_component(prefix.2);
    lemma_components_of_joined(a, b);
    lemma_components_of_joined(a + seq!['.'] + b, c);
}

/// A prefix text reads back as the prefix it writes.
pub proof fn lemma_prefix_round_trip(prefix: (u8, u8, u8))
    ensures
        prefix_octets(prefix_text(prefix)) == Some(prefix),
{
    lemma_prefix_components(prefix);
    lemma_octet_round_trip(prefix.0);
    lemma_octet_round_trip(prefix.1);
    lemma_octet_round_trip(prefix.2);
}

/// An address under a prefix of three components has the last octet it
/// was written with.
pub proof fn lemma_last_octet_of_address(prefix: Seq<char>, last: u8)
    requires
        components(prefix).len() == 3,
    ensures
        last_octet(address_text(prefix, last)) == Some(last),
{
    lemma_components_of_joined(prefix, octet_text(last));
    lemma_octet_is_component(last);
    lemma_octet_round_trip(last);
}

/// An address written from a prefix and a last octet reads back as both.
pub proof fn lemma_address_round_trip(prefix: (u8, u8, u8), last: u8)
    ensures
        prefix_octets(address_text(prefix_text(prefix), last)) == Some(prefix),
        last_octet(address_text(prefix_text(prefix), last)) == Some(last),
{
    lemma_prefix_components(prefix);
    lemma_last_octet_of_address(prefix_text(prefix), last);
    lemma_components_of_joined(prefix_text(prefix), octet_text(last));
    lemma_octet_is_component(last);
    lemma_octet_round_trip(prefix.0);
    lemma_octet_round_trip(prefix.1);
    lemma_octet_round_trip(prefix.2);
}

/// The last octet of `ip_address`, if it has one: `None` when there are
/// fewer than four components or the fourth writes no octet.
pub fn last_octet_of(ip_address: &str) -> (r: Option<u8>)
    ensures
        r == last_octet(ip_address@),
{
    let chars = chars_of(ip_address);
    let parts = split_dots(&chars);
    if parts.len() > 3 {
        parse_octet(&parts[3])
    } else {
        None
    }
}

/// The last octet of `ip_address`.
pub fn get_last_octet_for_ip(ip_address: &str) -> (octet: u8)
    requires
        last_octet(ip_address@) is Some,
    ensures
        last_octet(ip_address@) == Some(octet),
{
    last_octet_of(ip_address).unwrap()
}

} // verus!
