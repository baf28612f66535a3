//! The order of addresses: by last octet.

use std::cmp::Ordering;
use vstd::prelude::*;
use crate::address::{get_last_octet_for_ip, last_octet};

verus! {

/// How the octet `a` stands to the octet `b`.
pub open spec fn octet_order(a: u8, b: u8) -> Ordering {
    if a < b {
        Ordering::Less
    } else if a == b {
        Ordering::Equal
    } else {
        Ordering::Greater
    }
}

/// Compares two addresses by their last octets.
pub fn compare_ips<T: AsRef<str>>(ip_address1: &str, ip_address2: &str) -> (order: Ordering)
    requires
        last_octet(ip_address1@) is Some,
        last_octet(ip_address2@) is Some,
    ensures
        order == octet_order(last_octet(ip_address1@)->0, last_octet(ip_address2@)->0),
{
    let first: u8 = get_last_octet_for_ip(ip_address1);
    let second: u8 = get_last_octet_for_ip(ip_address2);
    first.cmp(&second)
}

} // verus!
