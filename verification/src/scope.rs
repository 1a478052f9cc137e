//! A single lexical block's symbol-to-slot mapping.

use vstd::prelude::*;
use crate::mem::SlotIx;
use crate::symbol::Symbol;

verus! {

/// The mapping an association list denotes; later entries win, though a
/// well-formed scope never holds a key twice.
pub open spec fn entries_map(s: Seq<(Symbol, SlotIx)>) -> Map<Symbol, SlotIx>
    decreases s.len(),
{
    if s.len() == 0 {
        Map::empty()
    } else {
        entries_map(s.drop_last()).insert(s.last().0, s.last().1)
    }
}

pub proof fn lemma_entries_map_contains(s: Seq<(Symbol, SlotIx)>, sym: Symbol)
    ensures
        entries_map(s).contains_key(sym) <==> exists|i: int| 0 <= i < s.len() && s[i].0 == sym,
    decreases s.len(),
{
    if s.len() > 0 {
        lemma_entries_map_contains(s.drop_last(), sym);
        if s.last().0 == sym {
            assert(s[s.len() - 1].0 == sym);
        } else if entries_map(s).contains_key(sym) {
            let i = choose|i: int| 0 <= i < s.drop_last().len() && s.drop_last()[i].0 == sym;
            assert(s[i].0 == sym);
        } else {
            assert forall|i: int| 0 <= i < s.len() implies s[i].0 != sym by {
                if i < s.len() - 1 {
                    assert(s.drop_last()[i].0 == s[i].0);
                }
            }
        }
    }
}

pub proof fn lemma_entries_map_index(s: Seq<(Symbol, SlotIx)>, i: int)
    requires
        0 <= i < s.len(),
        forall|p: int, q: int| 0 <= p < q < s.len() ==> s[p].0 != s[q].0,
    ensures
        entries_map(s).contains_key(s[i].0),
        entries_map(s)[s[i].0] == s[i].1,
    decreases s.len(),
{
    if i == s.len() - 1 {
    } else {
        assert(s.drop_last()[i] == s[i]);
        lemma_entries_map_index(s.drop_last(), i);
        assert(s.last().0 != s[i].0);
    }
}

/// One lexical block: translates symbols declared in it to slot indices.
/// Slots themselves live in the owning frame; a scope only names them.
#[derive(Debug)]
pub struct Scope {
    entries: Vec<(Symbol, SlotIx)>,
}

impl Scope {
    /// The finite symbol-to-slot mapping this block denotes.
    pub closed spec fn view(&self) -> Map<Symbol, SlotIx> {
        entries_map(self.entries@)
    }

    /// Each symbol is recorded at most once.
    pub closed spec fn wf(&self) -> bool {
        forall|p: int, q: int|
            0 <= p < q < self.entries@.len() ==> self.entries@[p].0 != self.entries@[q].0
    }

    pub fn new() -> (s: Scope)
        ensures
            s@ == Map::<Symbol, SlotIx>::empty(),
            s.wf(),
    {
        Scope { entries: Vec::new() }
    }

    /// Record `symbol` at `ix` unless this block already declares it; the
    /// result says whether the insertion happened.
    pub fn declare(&mut self, symbol: Symbol, ix: SlotIx) -> (r: bool)
        requires
            old(self).wf(),
        ensures
            final(self).wf(),
            r == !old(self)@.contains_key(symbol),
            r ==> final(self)@ == old(self)@.insert(symbol, ix),
            !r ==> final(self)@ == old(self)@,
    {
        match self.resolve(symbol) {
            Some(_) => false,
            None => {
                let ghost pre = self.entries@;
                self.entries.push((symbol, ix));
                proof {
                    lemma_entries_map_contains(pre, symbol);
                    assert forall|p: int, q: int|
                        0 <= p < q < self.entries@.len() implies self.entries@[p].0
                        != self.entries@[q].0 by {
                        if q < pre.len() {
                            assert(self.entries@[p] == pre[p] && self.entries@[q] == pre[q]);
                        } else {
                            assert(self.entries@[p] == pre[p] && self.entries@[q] == (symbol, ix));
                        }
                    }
                    assert(self.entries@.drop_last() =~= pre);
                }
                true
            }
        }
    }

    /// The slot this block maps `symbol` to, if any.  Enclosing blocks are
    /// the frame's concern, not this one's.
    pub fn resolve(&self, symbol: Symbol) -> (r: Option<SlotIx>)
        requires
            self.wf(),
        ensures
            r == (if self@.contains_key(symbol) {
                Some(self@[symbol])
            } else {
                None::<SlotIx>
            }),
    {
        let n = self.entries.len();
        let mut i: usize = 0;
        while i < n
            invariant
                n == self.entries@.len(),
                i <= n,
                self.wf(),
                forall|j: int| 0 <= j < i ==> self.entries@[j].0 != symbol,
            decreases n - i,
        {
            let (sym, ix) = self.entries[i];
            if sym == symbol {
                proof {
                    lemma_entries_map_index(self.entries@, i as int);
                }
                return Some(ix);
            }
            i += 1;
        }
        proof {
            lemma_entries_map_contains(self.entries@, symbol);
        }
        None
    }
}

} // verus!
