//! Union without repetition: what one round adds to what is already found.

use vstd::prelude::*;
use crate::text::texts;

verus! {

/// `base`, then the members of `more` that are not yet there, each once,
/// in the order they first appear in `more`.
pub open spec fn union_in_order<A>(base: Seq<A>, more: Seq<A>) -> Seq<A>
    decreases more.len(),
{
    if more.len() == 0 {
        base
    } else {
        let before = union_in_order(base, more.drop_last());
        if before.contains(more.last()) {
            before
        } else {
            before.push(more.last())
        }
    }
}

/// A union starts with its base, and holds what the base or the addition
/// holds and nothing else.
pub proof fn lemma_union_members<A>(base: Seq<A>, more: Seq<A>)
    ensures
        union_in_order(base, more).len() >= base.len(),
        union_in_order(base, more).take(base.len() as int) == base,
        forall|x: A| #[trigger]
            union_in_order(base, more).contains(x) <==> base.contains(x) || more.contains(x),
    decreases more.len(),
{
    let u = union_in_order(base, more);
    if more.len() == 0 {
        assert forall|x: A| #[trigger] u.contains(x) <==> base.contains(x) || more.contains(
            x,
        ) by {
            if more.contains(x) {
                let i = choose|i: int| 0 <= i < more.len() && more[i] == x;
            }
        }
    } else {
        let rest = more.drop_last();
        let before = union_in_order(base, rest);
        let last = more.last();
        lemma_union_members(base, rest);
        assert forall|x: A| #[trigger] u.contains(x) <==> base.contains(x) || more.contains(
            x,
        ) by {
            if more.contains(x) {
                let i = choose|i: int| 0 <= i < more.len() && more[i] == x;
                if i < rest.len() {
                    assert(rest[i] == x);
                }
            }
            if rest.contains(x) {
                let i = choose|i: int| 0 <= i < rest.len() && rest[i] == x;
            }
            if !before.contains(last) {
                assert(u[u.len() - 1] == last);
                if before.contains(x) {
                    let i = choose|i: int| 0 <= i < before.len() && before[i] == x;
                    assert(u[i] == x);
                }
                if u.contains(x) {
                    let i = choose|i: int| 0 <= i < u.len() && u[i] == x;
                }
            }
        }
    }
}

/// A union of a base without repetition is without repetition.
pub proof fn lemma_union_no_duplicates<A>(base: Seq<A>, more: Seq<A>)
    requires
        base.no_duplicates(),
    ensures
        union_in_order(base, more).no_duplicates(),
    decreases more.len(),
{
    if more.len() > 0 {
        lemma_union_no_duplicates(base, more.drop_last());
    }
}

/// Adding what is already there changes nothing.
pub proof fn lemma_union_of_known<A>(base: Seq<A>, more: Seq<A>)
    requires
        forall|i: int| 0 <= i < more.len() ==> base.contains(#[trigger] more[i]),
    ensures
        union_in_order(base, more) == base,
    decreases more.len(),
{
    if more.len() > 0 {
        let rest = more.drop_last();
        assert forall|i: int| 0 <= i < rest.len() implies base.contains(#[trigger] rest[i]) by {}
        lemma_union_of_known(base, rest);
    }
}

/// The union step is idempotent: adding the same members a second time
/// changes nothing.
pub proof fn lemma_union_idempotent<A>(base: Seq<A>, more: Seq<A>)
    ensures
        union_in_order(union_in_order(base, more), more) == union_in_order(base, more),
{
    let u = union_in_order(base, more);
    lemma_union_members(base, more);
    assert forall|i: int| 0 <= i < more.len() implies u.contains(#[trigger] more[i]) by {}
    lemma_union_of_known(u, more);
}

/// Whether `list` holds a string that reads as `wanted` does.
pub fn holds(list: &Vec<String>, wanted: &String) -> (found: bool)
    ensures
        found == texts(list@).contains(wanted@),
{
    let mut i: usize = 0;
    while i < list.len()
        invariant
            i <= list.len(),
            forall|j: int| 0 <= j < i ==> texts(list@)[j] != wanted@,
        decreases list.len() - i,
    {
        if list[i] == *wanted {
            assert(texts(list@)[i as int] == wanted@);
            return true;
        }
        i += 1;
    }
    false
}

/// `found` and the members of `more` that it lacks, each once, in the
/// order they first appear.
pub fn merged(found: &Vec<String>, more: &Vec<String>) -> (all: Vec<String>)
    ensures
        texts(all@) == union_in_order(texts(found@), texts(more@)),
{
    let mut all: Vec<String> = Vec::new();
    let mut k: usize = 0;
    while k < found.len()
        invariant
            k <= found.len(),
            texts(all@) == texts(found@).take(k as int),
        decreases found.len() - k,
    {
        let ghost before = texts(all@);
        all.push(found[k].clone());
        assert(texts(all@) =~= before.push(found@[k as int]@));
        k += 1;
    }
    let ghost base = texts(found@);
    let mut i: usize = 0;
    while i < more.len()
        invariant
            i <= more.len(),
            texts(all@) == union_in_order(base, texts(more@).take(i as int)),
        decreases more.len() - i,
    {
        proof {
            assert(texts(more@).take(i + 1).drop_last() =~= texts(more@).take(i as int));
        }
        if !holds(&all, &more[i]) {
            all.push(more[i].clone());
        }
        i += 1;
    }
    proof {
        assert(texts(more@).take(i as int) =~= texts(more@));
    }
    all
}

} // verus!
