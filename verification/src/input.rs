//! What a scan is asked to cover: a prefix of three octets and the bounds
//! of the last octet.

use std::ops::Range;
use vstd::prelude::*;
use vstd::string::*;
use crate::address::{prefix_octets, prefix_text};
use crate::dotted::{components, contents, split_dots};
use crate::error::ScanError;
use crate::octet::{octet_value, parse_octet, push_octet};
use crate::text::chars_of;

verus! {

/// An input as a mathematical value.
pub struct InputIpView {
    /// The three leading octets.
    pub prefix: (u8, u8, u8),
    /// The first last octet to cover.
    pub start: u8,
    /// The last octet at which to stop, itself not covered.
    pub end: u8,
}

/// A prefix of three octets and a half-open range of last octets.
pub struct InputIp {
    ip_triplet: [u8; 3],
    scan_range: Range<u8>,
}

impl View for InputIp {
    type V = InputIpView;

    closed spec fn view(&self) -> InputIpView {
        InputIpView {
            prefix: (self.ip_triplet[0], self.ip_triplet[1], self.ip_triplet[2]),
            start: self.scan_range.start,
            end: self.scan_range.end,
        }
    }
}

impl InputIp {
    /// Reads the prefix from dotted text, such as `192.168.86` or a whole
    /// address of the network, and keeps the bounds as given. The text is
    /// refused unless it has at least three components and each of its
    /// components writes an octet.
    pub fn parse(input_triplet: &str, start: u8, end: u8) -> (r: Result<InputIp, ScanError>)
        ensures
            r is Ok <==> prefix_octets(input_triplet@) is Some,
            r matches Ok(input) ==> Some(input@.prefix) == prefix_octets(input_triplet@)
                && input@.start == start && input@.end == end,
            r matches Err(e) ==> e == ScanError::InvalidPrefix,
    {
        let chars = chars_of(input_triplet);
        let parts = split_dots(&chars);
        let ghost wanted = contents(parts@);
        let mut octets: Vec<u8> = Vec::new();
        let mut i: usize = 0;
        while i < parts.len()
            invariant
                i <= parts.len(),
                wanted == contents(parts@),
                wanted == components(input_triplet@),
                octets@.len() == i,
                forall|j: int| 0 <= j < i ==> octet_value(#[trigger] wanted[j]) == Some(octets@[j]),
            decreases parts.len() - i,
        {
            assert(wanted[i as int] == parts@[i as int]@);
            match parse_octet(&parts[i]) {
                Some(octet) => {
                    octets.push(octet);
                },
                None => {
                    return Err(ScanError::InvalidPrefix);
                },
            }
            i += 1;
        }
        if octets.len() < 3 {
            return Err(ScanError::InvalidPrefix);
        }
        Ok(InputIp { ip_triplet: [octets[0], octets[1], octets[2]], scan_range: start..end })
    }

    /// The bounds of the last octet: from `start`, up to `end` and without
    /// it.
    pub fn scan_range(&self) -> (range: Range<u8>)
        ensures
            range.start == self@.start,
            range.end == self@.end,
    {
        self.scan_range.start..self.scan_range.end
    }

    /// The three octets of the prefix.
    pub fn ip_triplet(&self) -> (triplet: [u8; 3])
        ensures
            (triplet[0], triplet[1], triplet[2]) == self@.prefix,
    {
        self.ip_triplet
    }

    /// The prefix as dotted text.
    pub fn to_string(&self) -> (text: String)
        ensures
            text@ == prefix_text(self@.prefix),
    {
        proof {
            reveal_strlit(".");
        }
        let mut text: String = String::new();
        push_octet(&mut text, self.ip_triplet[0]);
        text.append(".");
        push_octet(&mut text, self.ip_triplet[1]);
        text.append(".");
        push_octet(&mut text, self.ip_triplet[2]);
        text
    }
}

} // verus!
