//! Which parameters of functions and join points are borrowed.
use vstd::prelude::*;

use crate::collections::{lemma_to_set_push, map_keys, MutMap};
use crate::ir::{JoinPointId, Layout, Param, Symbol};

verus! {

/// The flag of an argument that the callee takes over.
pub const OWNED: bool = false;

/// The flag of an argument that the callee only looks at.
pub const BORROWED: bool = true;

/// What a [`ParamMap`] has an entry for: a function at one of its layouts, or a join point.
#[derive(Clone, Copy, Debug, PartialEq, Eq, Structural)]
pub enum Key {
    Declaration(Symbol, Layout),
    JoinPoint(JoinPointId),
}

/// The parameters, with their borrow flags, of the functions and join points of a program.
pub struct ParamMap<'a> {
    /// For each function, what was entered for it; the last entry for a layout counts.
    declarations: MutMap<Symbol, Vec<(Layout, &'a [Param])>>,
    join_points: MutMap<JoinPointId, &'a [Param]>,
}

/// The last entry for a layout.
spec fn last_entry<'a>(entries: Seq<(Layout, &'a [Param])>, layout: Layout) -> Option<&'a [Param]>
    decreases entries.len(),
{
    if entries.len() == 0 {
        None
    } else if entries.last().0 == layout {
        Some(entries.last().1)
    } else {
        last_entry(entries.drop_last(), layout)
    }
}

impl<'a> View for ParamMap<'a> {
    type V = Map<Key, &'a [Param]>;

    closed spec fn view(&self) -> Map<Key, &'a [Param]> {
        Map::new(|key: Key| self.lookup(key) is Some, |key: Key| self.lookup(key)->0)
    }
}

/// The symbols of the functions that a parameter map has an entry for.
pub open spec fn declared_symbols(params: Map<Key, &[Param]>) -> Set<Symbol> {
    Set::new(
        |symbol: Symbol|
            exists|layout: Layout| #[trigger] params.contains_key(Key::Declaration(symbol, layout)),
    )
}

impl<'a> ParamMap<'a> {
    /// The entry for a key.
    closed spec fn lookup(&self, key: Key) -> Option<&'a [Param]> {
        match key {
            Key::Declaration(symbol, layout) => if self.declarations@.contains_key(symbol) {
                last_entry(self.declarations@[symbol]@, layout)
            } else {
                None
            },
            Key::JoinPoint(id) => if self.join_points@.contains_key(id) {
                Some(self.join_points@[id])
            } else {
                None
            },
        }
    }

    /// A map without entries.
    pub fn new() -> (r: Self)
        ensures
            r@ == Map::<Key, &'a [Param]>::empty(),
    {
        let r = ParamMap { declarations: MutMap::new(), join_points: MutMap::new() };
        assert(r@ =~= Map::<Key, &'a [Param]>::empty());
        r
    }

    /// Enters `params` for `key`, in place of what was there.
    pub fn insert(&mut self, key: Key, params: &'a [Param])
        ensures
            final(self)@ == old(self)@.insert(key, params),
    {
        match key {
            Key::Declaration(symbol, layout) => {
                let mut entries: Vec<(Layout, &'a [Param])> = match self.declarations.remove(
                    &symbol,
                ) {
                    Some(entries) => entries,
                    None => Vec::new(),
                };
                let ghost before = entries@;
                entries.push((layout, params));
                let ghost after = entries@;
                self.declarations.insert(symbol, entries);
                proof {
                    assert(after.drop_last() =~= before);
                    assert forall|l: Layout| #[trigger] last_entry(after, l) == if l == layout {
                        Some(params)
                    } else {
                        old(self).lookup(Key::Declaration(symbol, l))
                    } by {}
                }
            },
            Key::JoinPoint(id) => {
                self.join_points.insert(id, params);
            },
        }
        proof {
            assert forall|k: Key| #[trigger] self.lookup(k) == if k == key {
                Some(params)
            } else {
                old(self).lookup(k)
            } by {}
            assert(self@ =~= old(self)@.insert(key, params));
        }
    }

    /// The parameters of the function `symbol` at `layout`.
    pub fn get_symbol(&self, symbol: Symbol, layout: Layout) -> (r: Option<&'a [Param]>)
        ensures
            r == if self@.contains_key(Key::Declaration(symbol, layout)) {
                Some(self@[Key::Declaration(symbol, layout)])
            } else {
                None
            },
    {
        match self.declarations.get(&symbol) {
            Some(entries) => {
                let mut n: usize = entries.len();
                assert(entries@.take(n as int) =~= entries@);
                while n > 0
                    invariant
                        n <= entries.len(),
                        self.declarations@.contains_key(symbol),
                        self.declarations@[symbol] == *entries,
                        last_entry(entries@.take(n as int), layout) == last_entry(entries@, layout),
                    decreases n,
                {
                    assert(entries@.take(n as int).drop_last() =~= entries@.take(n - 1));
                    if entries[n - 1].0 == layout {
                        return Some(entries[n - 1].1);
                    }
                    n -= 1;
                }
                None
            },
            None => None,
        }
    }

    /// The parameters of the join point `id`, which must have an entry.
    pub fn get_join_point(&self, id: JoinPointId) -> (r: &'a [Param])
        requires
            self@.contains_key(Key::JoinPoint(id)),
        ensures
            r == self@[Key::JoinPoint(id)],
    {
        self.join_points.get(&id).unwrap()
    }

    /// The symbols of the functions that have an entry, in no particular order.
    pub fn declared(&self) -> (r: Vec<Symbol>)
        ensures
            r@.to_set() == declared_symbols(self@),
    {
        let keys = map_keys(&self.declarations);
        let mut r: Vec<Symbol> = Vec::new();
        let mut i: usize = 0;
        while i < keys.len()
            invariant
                i <= keys.len(),
                keys@.to_set() == self.declarations@.dom(),
                forall|x: Symbol| #[trigger]
                    r@.to_set().contains(x) <==> keys@.take(i as int).to_set().contains(x)
                        && self.declarations@[x]@.len() > 0,
            decreases keys.len() - i,
        {
            let symbol = keys[i];
            let ghost before = r@;
            assert(keys@.to_set().contains(symbol));
            if self.declarations.get(&symbol).unwrap().len() > 0 {
                proof {
                    lemma_to_set_push(before, symbol);
                }
                r.push(symbol);
            }
            proof {
                assert(keys@.take(i + 1) =~= keys@.take(i as int).push(symbol));
                lemma_to_set_push(keys@.take(i as int), symbol);
            }
            i += 1;
        }
        proof {
            assert(keys@.take(i as int) =~= keys@);
            assert forall|x: Symbol| #[trigger]
                r@.to_set().contains(x) <==> declared_symbols(self@).contains(x) by {
                assert(keys@.to_set().contains(x) <==> keys@.contains(x));
                if r@.to_set().contains(x) {
                    let layout = self.declarations@[x]@.last().0;
                    assert(self@.contains_key(Key::Declaration(x, layout)));
                }
            }
            assert(r@.to_set() =~= declared_symbols(self@));
        }
        r
    }
}

} // verus!
