//! The maps and sets that the pass works with.
use vstd::prelude::*;

use std::collections::{HashMap, HashSet};

verus! {

/// A map.
pub type MutMap<K, V> = HashMap<K, V>;

/// A set.
pub type MutSet<K> = HashSet<K>;

/// A set with the same elements.
pub fn copy_set(set: &MutSet<u64>) -> (r: MutSet<u64>)
    ensures
        r@ == set@,
{
    let mut r: MutSet<u64> = MutSet::new();
    extend_with_set(&mut r, set);
    assert(r@ =~= set@);
    r
}

/// The elements of a set, each once, in no particular order.
pub fn set_elements(set: &MutSet<u64>) -> (r: Vec<u64>)
    ensures
        r@.no_duplicates(),
        r@.to_set() == set@,
{
    let mut r: Vec<u64> = Vec::new();
    for item in iter: set.iter()
        invariant
            iter.seq().no_duplicates(),
            iter.seq().unref().to_set() == set@,
            r@ == iter.seq().unref().take(iter.index() as int),
            iter.index() == iter.seq().len() ==> r@ == iter.seq().unref(),
    {
        r.push(*item);
        proof {
            let all = iter.seq().unref();
            let n = iter.index() as int;
            assert(all.take(n + 1) =~= all.take(n).push(all[n]));
            assert(all.take(all.len() as int) =~= all);
        }
    }
    r
}

/// The keys of a map, in no particular order.
pub fn map_keys<V>(map: &MutMap<u64, V>) -> (r: Vec<u64>)
    ensures
        r@.to_set() == map@.dom(),
{
    let mut r: Vec<u64> = Vec::new();
    for key in iter: map.keys()
        invariant
            iter.seq().unref().to_set() == map@.dom(),
            r@ == iter.seq().unref().take(iter.index() as int),
            iter.index() == iter.seq().len() ==> r@ == iter.seq().unref(),
    {
        r.push(*key);
        proof {
            let all = iter.seq().unref();
            let n = iter.index() as int;
            assert(all.take(n + 1) =~= all.take(n).push(all[n]));
            assert(all.take(all.len() as int) =~= all);
        }
    }
    r
}

/// Adds the elements of `items` to `set`.
pub fn extend_with_set(set: &mut MutSet<u64>, items: &MutSet<u64>)
    ensures
        final(set)@ == old(set)@.union(items@),
{
    let ghost start = set@;
    for item in iter: items.iter()
        invariant
            set@ == start.union(iter.seq().unref().take(iter.index() as int).to_set()),
            iter.seq().unref().to_set() == items@,
            iter.index() == iter.seq().len() ==> set@ == start.union(items@),
    {
        proof {
            let all = iter.seq().unref();
            let n = iter.index() as int;
            assert(all.take(n + 1) =~= all.take(n).push(all[n]));
            lemma_to_set_push(all.take(n), all[n]);
        }
        set.insert(*item);
        proof {
            let all = iter.seq().unref();
            let n = iter.index() as int;
            assert(set@ =~= start.union(all.take(n + 1).to_set()));
            assert(all.take(all.len() as int) =~= all);
        }
    }
}

/// Adds the elements of the slice `items` to `set`.
pub fn extend_with_slice(set: &mut MutSet<u64>, items: &[u64])
    ensures
        final(set)@ == old(set)@.union(items@.to_set()),
{
    let ghost start = set@;
    let mut i: usize = 0;
    assert(set@ =~= start.union(items@.take(0).to_set()));
    while i < items.len()
        invariant
            i <= items.len(),
            set@ == start.union(items@.take(i as int).to_set()),
        decreases items.len() - i,
    {
        proof {
            assert(items@.take(i + 1) =~= items@.take(i as int).push(items@[i as int]));
            lemma_to_set_push(items@.take(i as int), items@[i as int]);
        }
        set.insert(items[i]);
        i += 1;
        assert(set@ =~= start.union(items@.take(i as int).to_set()));
    }
    assert(items@.take(i as int) =~= items@);
}

/// Pushing an element onto a sequence adds it to the set of elements.
pub proof fn lemma_to_set_push<A>(s: Seq<A>, a: A)
    ensures
        s.push(a).to_set() == s.to_set().insert(a),
{
    assert forall|x: A| s.push(a).to_set().contains(x) <==> s.to_set().insert(a).contains(x) by {
        if s.contains(x) {
            let i = choose|i: int| 0 <= i < s.len() && s[i] == x;
            assert(s.push(a)[i] == x);
        }
        assert(s.push(a)[s.len() as int] == a);
    }
    assert(s.push(a).to_set() =~= s.to_set().insert(a));
}

} // verus!
