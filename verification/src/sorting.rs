//! Putting addresses in order of last octet, first come first among equals.

use vstd::prelude::*;
use vstd::seq_lib::*;
use crate::address::{addressed, last_octet, last_octet_of};
use crate::text::texts;

verus! {

/// The addresses of `s` whose last octet is `k`, in the order they have
/// in `s`.
pub open spec fn with_last_octet(s: Seq<Seq<char>>, k: u8) -> Seq<Seq<char>> {
    s.filter(|a: Seq<char>| last_octet(a) == Some(k))
}

/// Whether the last octets of `s` never fall from one address to the next.
pub open spec fn ascending(s: Seq<Seq<char>>) -> bool {
    forall|i: int, j: int|
        0 <= i < j < s.len() ==> last_octet(#[trigger] s[i])->0 <= last_octet(#[trigger] s[j])->0
}

/// Whether `r` is `s` put in order: every address of `r` has a last octet,
/// the last octets ascend, and the addresses that share a last octet are
/// those of `s`, in the order they have in `s`.
pub open spec fn is_ordering_of(r: Seq<Seq<char>>, s: Seq<Seq<char>>) -> bool {
    &&& addressed(r)
    &&& ascending(r)
    &&& forall|k: u8| #[trigger] with_last_octet(r, k) == with_last_octet(s, k)
}

/// Whether no two addresses of `s` share a last octet.
pub open spec fn distinct_last_octets(s: Seq<Seq<char>>) -> bool {
    forall|i: int, j: int|
        0 <= i < s.len() && 0 <= j < s.len() && i != j ==> last_octet(#[trigger] s[i])
            != last_octet(#[trigger] s[j])
}

/// What a newcomer does to a filtered sequence: nothing if the filter
/// refuses it; if the filter accepts it and refuses all that stands at or
/// after its place, it comes last.
proof fn lemma_filter_insert<A>(s: Seq<A>, pos: int, e: A, pred: spec_fn(A) -> bool)
    requires
        0 <= pos <= s.len(),
        pred(e) ==> forall|j: int| pos <= j < s.len() ==> !pred(#[trigger] s[j]),
    ensures
        !pred(e) ==> s.insert(pos, e).filter(pred) == s.filter(pred),
        pred(e) ==> s.insert(pos, e).filter(pred) == s.filter(pred).push(e),
{
    let head = s.subrange(0, pos);
    let tail = s.subrange(pos, s.len() as int);
    let one = seq![e];
    assert(s =~= head + tail);
    assert(s.insert(pos, e) =~= head + one + tail);
    reveal_with_fuel(Seq::filter, 2);
    if pred(e) && tail.filter(pred).len() > 0 {
        tail.lemma_filter_contains_rev(pred, tail.filter(pred)[0]);
    }
}

/// An address with a last octet stands at the end of the addresses that
/// share it, and in no other group.
proof fn lemma_last_in_its_group(s: Seq<Seq<char>>, k: u8)
    requires
        s.len() > 0,
    ensures
        last_octet(s.last()) == Some(k) ==> with_last_octet(s, k) == with_last_octet(
            s.drop_last(),
            k,
        ).push(s.last()),
        last_octet(s.last()) != Some(k) ==> with_last_octet(s, k) == with_last_octet(
            s.drop_last(),
            k,
        ),
{
    reveal_with_fuel(Seq::filter, 2);
}

/// The last address of one ordering is found in any sequence that has the
/// same groups.
proof fn lemma_last_is_shared(a: Seq<Seq<char>>, b: Seq<Seq<char>>)
    requires
        a.len() > 0,
        addressed(a),
        forall|k: u8| #[trigger] with_last_octet(a, k) == with_last_octet(b, k),
    ensures
        b.contains(a.last()),
{
    let x = a.last();
    let k = last_octet(x)->0;
    lemma_last_in_its_group(a, k);
    assert(with_last_octet(a, k).last() == x);
    assert(with_last_octet(b, k).contains(x));
    b.lemma_filter_contains_rev(|t: Seq<char>| last_octet(t) == Some(k), x);
}

/// There is one way only to put a sequence in order: two orderings with
/// the same groups are the same sequence.
pub proof fn lemma_ordering_unique(a: Seq<Seq<char>>, b: Seq<Seq<char>>)
    requires
        addressed(a),
        ascending(a),
        addressed(b),
        ascending(b),
        forall|k: u8| #[trigger] with_last_octet(a, k) == with_last_octet(b, k),
    ensures
        a == b,
    decreases a.len(),
{
    if a.len() == 0 {
        if b.len() > 0 {
            lemma_last_is_shared(b, a);
        }
    } else if b.len() == 0 {
        lemma_last_is_shared(a, b);
    } else {
        let ka = last_octet(a.last())->0;
        lemma_last_is_shared(a, b);
        lemma_last_is_shared(b, a);
        let a0 = a.drop_last();
        let b0 = b.drop_last();
        lemma_last_in_its_group(a, ka);
        lemma_last_in_its_group(b, ka);
        let ga = with_last_octet(a0, ka);
        let gb = with_last_octet(b0, ka);
        assert(ga.push(a.last()).last() == a.last());
        assert(ga =~= ga.push(a.last()).drop_last());
        assert forall|k: u8| #[trigger] with_last_octet(a0, k) == with_last_octet(b0, k) by {
            lemma_last_in_its_group(a, k);
            lemma_last_in_its_group(b, k);
        }
        assert(addressed(a0) && ascending(a0));
        assert(addressed(b0) && ascending(b0));
        lemma_ordering_unique(a0, b0);
        assert(a =~= a0.push(a.last()));
    }
}

/// Ordering neither adds nor loses an address.
pub proof fn lemma_ordering_keeps_members(r: Seq<Seq<char>>, s: Seq<Seq<char>>, x: Seq<char>)
    requires
        is_ordering_of(r, s),
        addressed(s),
    ensures
        r.contains(x) <==> s.contains(x),
{
    if r.contains(x) {
        let i = choose|i: int| 0 <= i < r.len() && r[i] == x;
        let k = last_octet(r[i])->0;
        let pred = |t: Seq<char>| last_octet(t) == Some(k);
        assert(with_last_octet(r, k) == with_last_octet(s, k));
        s.lemma_filter_contains_rev(pred, x);
    }
    if s.contains(x) {
        let i = choose|i: int| 0 <= i < s.len() && s[i] == x;
        let k = last_octet(s[i])->0;
        let pred = |t: Seq<char>| last_octet(t) == Some(k);
        assert(with_last_octet(r, k) == with_last_octet(s, k));
        r.lemma_filter_contains_rev(pred, x);
    }
}

/// Where no two addresses share a last octet, at most one address has a
/// given last octet.
proof fn lemma_group_of_one(s: Seq<Seq<char>>, k: u8)
    requires
        distinct_last_octets(s),
    ensures
        with_last_octet(s, k).len() <= 1,
    decreases s.len(),
{
    if s.len() > 0 {
        let rest = s.drop_last();
        assert(distinct_last_octets(rest));
        lemma_group_of_one(rest, k);
        lemma_last_in_its_group(s, k);
        let group = with_last_octet(rest, k);
        if last_octet(s.last()) == Some(k) && group.len() > 0 {
            let x = group[0];
            rest.lemma_filter_contains_rev(|t: Seq<char>| last_octet(t) == Some(k), x);
            let i = choose|i: int| 0 <= i < rest.len() && rest[i] == x;
            assert(last_octet(s[i]) == last_octet(s.last()));
        }
    }
}

/// Where no two addresses share a last octet, the order of arrival is
/// immaterial: sequences with the same members have the same ordering.
pub proof fn lemma_arrival_order_immaterial(
    r1: Seq<Seq<char>>,
    s1: Seq<Seq<char>>,
    r2: Seq<Seq<char>>,
    s2: Seq<Seq<char>>,
)
    requires
        is_ordering_of(r1, s1),
        is_ordering_of(r2, s2),
        distinct_last_octets(s1),
        distinct_last_octets(s2),
        forall|x: Seq<char>| s1.contains(x) <==> s2.contains(x),
    ensures
        r1 == r2,
{
    assert forall|k: u8| #[trigger] with_last_octet(r1, k) == with_last_octet(r2, k) by {
        let pred = |t: Seq<char>| last_octet(t) == Some(k);
        let g1 = with_last_octet(s1, k);
        let g2 = with_last_octet(s2, k);
        lemma_group_of_one(s1, k);
        lemma_group_of_one(s2, k);
        if g1.len() > 0 {
            let x = g1[0];
            s1.lemma_filter_contains_rev(pred, x);
            let i = choose|i: int| 0 <= i < s2.len() && s2[i] == x;
            s2.lemma_filter_contains(pred, i);
        }
        if g2.len() > 0 {
            let x = g2[0];
            s2.lemma_filter_contains_rev(pred, x);
            let i = choose|i: int| 0 <= i < s1.len() && s1[i] == x;
            s1.lemma_filter_contains(pred, i);
        }
    }
    lemma_ordering_unique(r1, r2);
}

/// Puts `addresses` in order of last octet. Addresses with the same last
/// octet keep the order they came in.
pub fn sort_by_last_octet(addresses: &Vec<String>) -> (sorted: Vec<String>)
    requires
        addressed(texts(addresses@)),
    ensures
        is_ordering_of(texts(sorted@), texts(addresses@)),
        texts(sorted@).to_multiset() == texts(addresses@).to_multiset(),
        sorted@.len() == addresses@.len(),
{
    let ghost input = texts(addresses@);
    let mut sorted: Vec<String> = Vec::new();
    let mut keys: Vec<u8> = Vec::new();
    let mut i: usize = 0;
    proof {
        assert(input.take(0) =~= texts(sorted@));
    }
    while i < addresses.len()
        invariant
            i <= addresses.len(),
            input == texts(addresses@),
            addressed(input),
            sorted@.len() == i,
            keys@.len() == i,
            forall|j: int| 0 <= j < i ==> last_octet(#[trigger] sorted@[j]@) == Some(keys@[j]),
            forall|a: int, b: int| 0 <= a < b < i ==> keys@[a] <= keys@[b],
            forall|k: u8| #[trigger]
                with_last_octet(texts(sorted@), k) == with_last_octet(input.take(i as int), k),
            texts(sorted@).to_multiset() == input.take(i as int).to_multiset(),
        decreases addresses.len() - i,
    {
        let address: String = addresses[i].clone();
        assert(address@ == input[i as int]);
        let key: u8 = last_octet_of(address.as_str()).unwrap();
        let mut pos: usize = i;
        while pos > 0 && keys[pos - 1] > key
            invariant
                pos <= i,
                keys@.len() == i,
                forall|j: int| pos <= j < i ==> keys@[j] > key,
            decreases pos,
        {
            pos -= 1;
        }
        let ghost before = texts(sorted@);
        let ghost seen = input.take(i as int);
        let ghost e = address@;
        sorted.insert(pos, address);
        keys.insert(pos, key);
        proof {
            let after = texts(sorted@);
            let more = input.take(i + 1);
            assert(after =~= before.insert(pos as int, e));
            assert(more.drop_last() =~= seen);
            assert(more =~= seen.push(e));
            assert forall|k: u8| #[trigger]
                with_last_octet(after, k) == with_last_octet(more, k) by {
                let pred = |a: Seq<char>| last_octet(a) == Some(k);
                assert(with_last_octet(before, k) == with_last_octet(seen, k));
                lemma_filter_insert(before, pos as int, e, pred);
                reveal_with_fuel(Seq::filter, 2);
            }
            to_multiset_insert(before, pos as int, e);
            to_multiset_build(seen, e);
        }
        i += 1;
    }
    proof {
        assert(input.take(i as int) =~= input);
        assert(addressed(texts(sorted@)));
        assert(ascending(texts(sorted@)));
    }
    sorted
}

} // verus!
