//! Dotted text: the components that full stops separate.

use vstd::prelude::*;

verus! {

/// The pieces of `s` between its full stops, in order. A text without a
/// full stop is its own single component; two full stops in a row, or one
/// at either end, bound an empty component.
pub open spec fn components(s: Seq<char>) -> Seq<Seq<char>>
    decreases s.len(),
{
    if s.len() == 0 {
        seq![Seq::<char>::empty()]
    } else {
        let before = components(s.drop_last());
        if s.last() == '.' {
            before.push(Seq::<char>::empty())
        } else {
            before.update(before.len() - 1, before.last().push(s.last()))
        }
    }
}

/// Whether `s` holds no full stop.
pub open spec fn dot_free(s: Seq<char>) -> bool {
    forall|i: int| 0 <= i < s.len() ==> #[trigger] s[i] != '.'
}

/// The components written one after another with a full stop between
/// neighbours.
pub open spec fn dotted(parts: Seq<Seq<char>>) -> Seq<char>
    decreases parts.len(),
{
    if parts.len() == 0 {
        Seq::<char>::empty()
    } else if parts.len() == 1 {
        parts[0]
    } else {
        dotted(parts.drop_last()) + seq!['.'] + parts.last()
    }
}

/// What each vector of `v` holds, in the order of `v`.
pub open spec fn contents(v: Seq<Vec<char>>) -> Seq<Seq<char>> {
    v.map_values(|p: Vec<char>| p@)
}

/// There is always at least one component.
pub proof fn lemma_components_nonempty(s: Seq<char>)
    ensures
        components(s).len() >= 1,
    decreases s.len(),
{
    if s.len() > 0 {
        lemma_components_nonempty(s.drop_last());
    }
}

/// A text without a full stop is its own single component.
pub proof fn lemma_components_of_dot_free(s: Seq<char>)
    requires
        dot_free(s),
    ensures
        components(s) == seq![s],
    decreases s.len(),
{
    if s.len() == 0 {
        assert(s =~= Seq::<char>::empty());
    } else {
        lemma_components_of_dot_free(s.drop_last());
        assert(s.drop_last().push(s.last()) =~= s);
    }
}

/// A full stop between two texts parts their components: those of the
/// first text, then those of the second.
pub proof fn lemma_components_of_joined(a: Seq<char>, b: Seq<char>)
    ensures
        components(a + seq!['.'] + b) == components(a) + components(b),
    decreases b.len(),
{
    let whole = a + seq!['.'] + b;
    if b.len() == 0 {
        assert(whole.drop_last() =~= a);
    } else {
        lemma_components_of_joined(a, b.drop_last());
        lemma_components_nonempty(b.drop_last());
        assert(whole.drop_last() =~= a + seq!['.'] + b.drop_last());
    }
}

/// No component holds a full stop, and writing the components with full
/// stops between them gives the text back.
pub proof fn lemma_components_rejoin(s: Seq<char>)
    ensures
        forall|i: int| 0 <= i < components(s).len() ==> dot_free(#[trigger] components(s)[i]),
        dotted(components(s)) == s,
    decreases s.len(),
{
    if s.len() > 0 {
        let before = components(s.drop_last());
        lemma_components_rejoin(s.drop_last());
        if s.last() == '.' {
            assert(components(s).drop_last() =~= before);
        } else {
            lemma_dotted_grows(before, s.last());
        }
    }
}

/// A character added to the last component is a character added to the
/// dotted text.
proof fn lemma_dotted_grows(parts: Seq<Seq<char>>, c: char)
    requires
        parts.len() >= 1,
    ensures
        dotted(parts.update(parts.len() - 1, parts.last().push(c))) == dotted(parts).push(c),
{
    let grown = parts.update(parts.len() - 1, parts.last().push(c));
    if parts.len() > 1 {
        assert(grown.drop_last() =~= parts.drop_last());
    }
}

/// Splits `chars` at its full stops.
pub fn split_dots(chars: &Vec<char>) -> (parts: Vec<Vec<char>>)
    ensures
        contents(parts@) == components(chars@),
{
    let mut parts: Vec<Vec<char>> = Vec::new();
    let mut current: Vec<char> = Vec::new();
    let mut i: usize = 0;
    while i < chars.len()
        invariant
            i <= chars.len(),
            components(chars@.take(i as int)) == contents(parts@).push(current@),
        decreases chars.len() - i,
    {
        let c = chars[i];
        proof {
            assert(chars@.take(i + 1).drop_last() =~= chars@.take(i as int));
        }
        if c == '.' {
            parts.push(current);
            current = Vec::new();
        } else {
            current.push(c);
        }
        i += 1;
    }
    assert(chars@.take(i as int) =~= chars@);
    parts.push(current);
    parts
}

} // verus!
