//! One function's compile-time activation record: its slot layout and the
//! stack of block scopes currently open inside it.

use vstd::prelude::*;
use vstd::pervasive::VecAdditionalExecFns;
use crate::error::{Error, SourcePos};
use crate::mem::{FrameInfo, SlotIx, SlotKind};
use crate::scope::Scope;
use crate::symbol::Symbol;

verus! {

/// Mathematical view of a frame: its slot descriptors in index order and the
/// mapping each open block denotes, outermost block first.
#[verifier::ext_equal]
pub ghost struct FrameModel {
    pub slots: Seq<SlotKind>,
    pub scopes: Seq<Map<Symbol, SlotIx>>,
}

/// Frame sanity: every slot a block names exists, and no two distinct
/// declarations share a slot.
pub open spec fn frame_wf(f: FrameModel) -> bool {
    &&& forall|i: int, s: Symbol|
        0 <= i < f.scopes.len() && (#[trigger] f.scopes[i].contains_key(s)) ==> (f.scopes[i][s].0
            as int) < f.slots.len()
    &&& forall|i: int, j: int, s: Symbol, t: Symbol|
        0 <= i < f.scopes.len() && 0 <= j < f.scopes.len() && (#[trigger] f.scopes[i].contains_key(
            s,
        )) && (#[trigger] f.scopes[j].contains_key(t)) && (i != j || s != t) ==> f.scopes[i][s]
            != f.scopes[j][t]
}

/// Innermost-first search of the open blocks for `sym`.
pub open spec fn scopes_resolve(scopes: Seq<Map<Symbol, SlotIx>>, sym: Symbol) -> Option<SlotIx>
    decreases scopes.len(),
{
    if scopes.len() == 0 {
        None
    } else if scopes.last().contains_key(sym) {
        Some(scopes.last()[sym])
    } else {
        scopes_resolve(scopes.drop_last(), sym)
    }
}

pub proof fn lemma_scopes_resolve_cases(scopes: Seq<Map<Symbol, SlotIx>>, sym: Symbol)
    ensures
        scopes_resolve(scopes, sym) matches Some(ix) ==> exists|i: int|
            0 <= i < scopes.len() && (#[trigger] scopes[i]).contains_key(sym) && scopes[i][sym]
                == ix,
        scopes_resolve(scopes, sym) is None ==> forall|i: int|
            0 <= i < scopes.len() ==> !(#[trigger] scopes[i]).contains_key(sym),
    decreases scopes.len(),
{
    if scopes.len() > 0 {
        lemma_scopes_resolve_cases(scopes.drop_last(), sym);
        if !scopes.last().contains_key(sym) {
            match scopes_resolve(scopes, sym) {
                Some(ix) => {
                    let i = choose|i: int|
                        0 <= i < scopes.drop_last().len() && (#[trigger] scopes.drop_last()[i]).contains_key(
                            sym,
                        ) && scopes.drop_last()[i][sym] == ix;
                    assert(scopes[i].contains_key(sym) && scopes[i][sym] == ix);
                },
                None => {
                    assert forall|i: int| 0 <= i < scopes.len() implies !(
                    #[trigger] scopes[i]).contains_key(sym) by {
                        if i < scopes.len() - 1 {
                            assert(scopes.drop_last()[i] == scopes[i]);
                        }
                    }
                },
            }
        } else {
            assert(scopes[scopes.len() - 1].contains_key(sym));
        }
    }
}

/// In a well-formed frame, whatever resolves names an existing slot.
pub proof fn lemma_resolved_slot_in_bounds(f: FrameModel, sym: Symbol)
    requires
        frame_wf(f),
        scopes_resolve(f.scopes, sym) is Some,
    ensures
        (scopes_resolve(f.scopes, sym).unwrap().0 as int) < f.slots.len(),
{
    lemma_scopes_resolve_cases(f.scopes, sym);
}

/// Entering a block opens a fresh, empty innermost scope.
pub open spec fn frame_enter_block(f: FrameModel) -> FrameModel {
    FrameModel { slots: f.slots, scopes: f.scopes.push(Map::empty()) }
}

/// Exiting a block discards the innermost scope; slots persist.
pub open spec fn frame_exit_block(f: FrameModel) -> FrameModel {
    FrameModel { slots: f.slots, scopes: f.scopes.drop_last() }
}

/// Declaring allocates the next slot as `Regular` and records it in the
/// innermost block, unless that block already declares the symbol.
pub open spec fn frame_declare(f: FrameModel, sym: Symbol, pos: SourcePos) -> (FrameModel, Result<
    SlotIx,
    Error,
>) {
    if f.scopes.last().contains_key(sym) {
        (f, Err(Error::DuplicateVariable { symbol: sym, pos }))
    } else {
        let ix = SlotIx(f.slots.len() as usize);
        (
            FrameModel {
                slots: f.slots.push(SlotKind::Regular),
                scopes: f.scopes.update(f.scopes.len() - 1, f.scopes.last().insert(sym, ix)),
            },
            Ok(ix),
        )
    }
}

/// Resolve-or-declare consults the root block only: an existing entry is
/// reused unchanged, otherwise the next slot is allocated with `kind` and
/// recorded there.  This is the deduplication step of the capture protocol.
pub open spec fn frame_rod(f: FrameModel, sym: Symbol, kind: SlotKind) -> (FrameModel, SlotIx) {
    if f.scopes.first().contains_key(sym) {
        (f, f.scopes.first()[sym])
    } else {
        let ix = SlotIx(f.slots.len() as usize);
        (
            FrameModel {
                slots: f.slots.push(kind),
                scopes: f.scopes.update(0, f.scopes.first().insert(sym, ix)),
            },
            ix,
        )
    }
}

/// Closing overwrites one slot's kind with `Closed`; the blocks are untouched.
pub open spec fn frame_close(f: FrameModel, ix: SlotIx) -> FrameModel {
    FrameModel { slots: f.slots.update(ix.0 as int, SlotKind::Closed), scopes: f.scopes }
}

/// One function's lexical scope: its activation-record layout and the stack
/// of blocks currently open within it.
#[derive(Debug)]
pub struct Frame {
    /// A memory slot for each variable, in allocation order.
    slots: Vec<SlotKind>,
    /// Open blocks, outermost first.
    scopes: Vec<Scope>,
}

impl Frame {
    pub closed spec fn view(&self) -> FrameModel {
        FrameModel { slots: self.slots@, scopes: self.scopes@.map_values(|sc: Scope| sc@) }
    }

    pub closed spec fn scopes_wf(&self) -> bool {
        forall|i: int| 0 <= i < self.scopes@.len() ==> (#[trigger] self.scopes@[i]).wf()
    }

    pub open spec fn wf(&self) -> bool {
        self.scopes_wf() && frame_wf(self@)
    }

    /// A frame with no slots and no open block; the root block must be
    /// entered separately.
    pub fn new() -> (r: Frame)
        ensures
            r.wf(),
            r@ == (FrameModel { slots: Seq::<SlotKind>::empty(), scopes: Seq::<
                Map<Symbol, SlotIx>,
            >::empty() }),
    {
        let r = Frame { slots: Vec::new(), scopes: Vec::new() };
        proof {
            assert(r@.scopes =~= Seq::<Map<Symbol, SlotIx>>::empty());
        }
        r
    }

    /// Open a new, empty innermost block.
    pub fn enter_block(&mut self)
        requires
            old(self).wf(),
        ensures
            final(self).wf(),
            final(self)@ == frame_enter_block(old(self)@),
    {
        self.scopes.push(Scope::new());
        proof {
            assert(self@.scopes =~= old(self)@.scopes.push(Map::empty()));
            let m = self@;
            assert forall|i: int, s: Symbol|
                0 <= i < m.scopes.len() && (#[trigger] m.scopes[i].contains_key(s)) implies (
            m.scopes[i][s].0 as int) < m.slots.len() by {
                assert(i < m.scopes.len() - 1);
                assert(m.scopes[i] == old(self)@.scopes[i]);
            }
            assert forall|i: int, j: int, s: Symbol, t: Symbol|
                0 <= i < m.scopes.len() && 0 <= j < m.scopes.len() && (
            #[trigger] m.scopes[i].contains_key(s)) && (#[trigger] m.scopes[j].contains_key(t)) && (
            i != j || s != t) implies m.scopes[i][s] != m.scopes[j][t] by {
                assert(m.scopes[i] == old(self)@.scopes[i]);
                assert(m.scopes[j] == old(self)@.scopes[j]);
            }
        }
    }

    /// Discard the innermost block.  Exiting with no block open is a caller
    /// contract violation and is excluded outright.
    pub fn exit_block(&mut self)
        requires
            old(self).wf(),
            old(self)@.scopes.len() > 0,
        ensures
            final(self).wf(),
            final(self)@ == frame_exit_block(old(self)@),
    {
        let _ = self.scopes.pop();
        proof {
            assert(self@.scopes =~= old(self)@.scopes.drop_last());
            let m = self@;
            assert forall|i: int, s: Symbol|
                0 <= i < m.scopes.len() && (#[trigger] m.scopes[i].contains_key(s)) implies (
            m.scopes[i][s].0 as int) < m.slots.len() by {
                assert(m.scopes[i] == old(self)@.scopes[i]);
            }
            assert forall|i: int, j: int, s: Symbol, t: Symbol|
                0 <= i < m.scopes.len() && 0 <= j < m.scopes.len() && (
            #[trigger] m.scopes[i].contains_key(s)) && (#[trigger] m.scopes[j].contains_key(t)) && (
            i != j || s != t) implies m.scopes[i][s] != m.scopes[j][t] by {
                assert(m.scopes[i] == old(self)@.scopes[i]);
                assert(m.scopes[j] == old(self)@.scopes[j]);
            }
        }
    }

    /// Declare `symbol` in the innermost block, allocating the next slot as
    /// `Regular`; report `DuplicateVariable` (allocating nothing) when that
    /// block already declares it.
    pub fn declare(&mut self, symbol: Symbol, pos: SourcePos) -> (r: Result<SlotIx, Error>)
        requires
            old(self).wf(),
            old(self)@.scopes.len() > 0,
        ensures
            final(self).wf(),
            ({
                let step = frame_declare(old(self)@, symbol, pos);
                final(self)@ == step.0 && r == step.1
            }),
    {
        let ix = SlotIx(self.slots.len());
        let last = self.scopes.len() - 1;
        let ghost pre = self@;
        let mut top = self.scopes.pop().unwrap();
        let ok = top.declare(symbol, ix);
        proof {
            assert(pre.scopes.last() == old(self)@.scopes[last as int]);
        }
        self.scopes.push(top);
        proof {
            assert(self.scopes@ =~= old(self).scopes@.update(last as int, self.scopes@[last as int]));
        }
        if ok {
            self.slots.push(SlotKind::Regular);
            proof {
                let m = self@;
                assert(m.scopes =~= pre.scopes.update(
                    last as int,
                    pre.scopes.last().insert(symbol, ix),
                ));
                assert(m.slots =~= pre.slots.push(SlotKind::Regular));
                lemma_rooms_preserved_on_insert(pre, last as int, symbol, SlotKind::Regular);
            }
            Ok(ix)
        } else {
            proof {
                let m = self@;
                assert(m.scopes =~= pre.scopes);
                assert(m.slots =~= pre.slots);
            }
            Err(Error::duplicate_variable(symbol, pos))
        }
    }

    /// The slot for `symbol` in this frame alone, searching blocks from the
    /// innermost outwards.  Absence is a signal for the caller, not an error:
    /// the symbol may live in an enclosing frame.
    pub fn resolve(&self, symbol: Symbol) -> (r: Option<SlotIx>)
        requires
            self.wf(),
        ensures
            r == scopes_resolve(self@.scopes, symbol),
    {
        let n = self.scopes.len();
        proof {
            assert(self@.scopes.take(n as int) =~= self@.scopes);
        }
        let mut j: usize = n;
        while j > 0
            invariant
                self.wf(),
                n == self.scopes@.len(),
                j <= n,
                scopes_resolve(self@.scopes, symbol) == scopes_resolve(
                    self@.scopes.take(j as int),
                    symbol,
                ),
            decreases j,
        {
            let hit = self.scopes[j - 1].resolve(symbol);
            proof {
                assert(self@.scopes.take(j as int).last() == self@.scopes[j as int - 1]);
                assert(self@.scopes[j as int - 1] == self.scopes@[j as int - 1]@);
                assert(self@.scopes.take(j as int).drop_last() =~= self@.scopes.take(j as int - 1));
            }
            match hit {
                Some(ix) => {
                    return Some(ix);
                },
                None => {
                    j -= 1;
                },
            }
        }
        proof {
            assert(self@.scopes.take(0) =~= Seq::<Map<Symbol, SlotIx>>::empty());
        }
        None
    }

    /// Look `symbol` up in the root block only; reuse its slot when present,
    /// otherwise allocate the next slot with `kind` and record it there.
    pub fn resolve_or_declare(&mut self, symbol: Symbol, kind: SlotKind) -> (r: SlotIx)
        requires
            old(self).wf(),
            old(self)@.scopes.len() > 0,
        ensures
            final(self).wf(),
            ({
                let step = frame_rod(old(self)@, symbol, kind);
                final(self)@ == step.0 && r == step.1
            }),
        (r.0 as int) < final(self)@.slots.len(),
    {
        let ghost pre = self@;
        let root_hit = self.scopes[0].resolve(symbol);
        proof {
            assert(self@.scopes[0] == self.scopes@[0]@);
        }
        match root_hit {
            Some(ix) => {
                proof {
                    assert(pre.scopes.first().contains_key(symbol));
                }
                ix
            },
            None => {
                let ix = SlotIx(self.slots.len());
                let mut root = self.scopes.remove(0);
                let inserted = root.declare(symbol, ix);
                self.scopes.insert(0, root);
                self.slots.push(kind);
                proof {
                    assert(self.scopes@ =~= old(self).scopes@.update(0, self.scopes@[0]));
                    let m = self@;
                    assert(m.scopes =~= pre.scopes.update(
                        0,
                        pre.scopes.first().insert(symbol, ix),
                    ));
                    assert(m.slots =~= pre.slots.push(kind));
                    lemma_rooms_preserved_on_insert(pre, 0, symbol, kind);
                }
                ix
            },
        }
    }

    /// Overwrite the slot's kind with `Closed`: a nested function captures
    /// it, so its storage must outlive this frame's activation.  Idempotent.
    pub fn close(&mut self, ix: SlotIx)
        requires
            old(self).wf(),
            (ix.0 as int) < old(self)@.slots.len(),
        ensures
            final(self).wf(),
            final(self)@ == frame_close(old(self)@, ix),
    {
        self.slots.set(ix.0, SlotKind::Closed);
        proof {
            assert(self@.scopes =~= old(self)@.scopes);
        }
    }

    /// Finalize this frame into the immutable layout handed to the code
    /// generator.
    pub fn into_info(self) -> (info: FrameInfo)
        ensures
            info.slots@ == self@.slots,
    {
        FrameInfo { slots: self.slots }
    }
}

/// Inserting a fresh symbol at the next slot index into any one block keeps
/// a frame well formed: the new slot exists, and it is distinct from every
/// slot any block already names.
proof fn lemma_rooms_preserved_on_insert(pre: FrameModel, at: int, sym: Symbol, kind: SlotKind)
    requires
        frame_wf(pre),
        pre.slots.len() <= usize::MAX,
        0 <= at < pre.scopes.len(),
        !pre.scopes[at].contains_key(sym),
    ensures
        frame_wf(
            FrameModel {
                slots: pre.slots.push(kind),
                scopes: pre.scopes.update(
                    at,
                    pre.scopes[at].insert(sym, SlotIx(pre.slots.len() as usize)),
                ),
            },
        ),
{
    let ix = SlotIx(pre.slots.len() as usize);
    let m = FrameModel {
        slots: pre.slots.push(kind),
        scopes: pre.scopes.update(at, pre.scopes[at].insert(sym, ix)),
    };
    assert forall|i: int, s: Symbol|
        0 <= i < m.scopes.len() && (#[trigger] m.scopes[i].contains_key(s)) implies (m.scopes[i][s].0
        as int) < m.slots.len() by {
        if i == at && s == sym {
        } else {
            assert(pre.scopes[i].contains_key(s) && pre.scopes[i][s] == m.scopes[i][s]);
        }
    }
    assert forall|i: int, j: int, s: Symbol, t: Symbol|
        0 <= i < m.scopes.len() && 0 <= j < m.scopes.len() && (#[trigger] m.scopes[i].contains_key(
            s,
        )) && (#[trigger] m.scopes[j].contains_key(t)) && (i != j || s != t) implies m.scopes[i][s]
        != m.scopes[j][t] by {
        if i == at && s == sym {
            assert(pre.scopes[j].contains_key(t) && pre.scopes[j][t] == m.scopes[j][t]);
        } else if j == at && t == sym {
            assert(pre.scopes[i].contains_key(s) && pre.scopes[i][s] == m.scopes[i][s]);
        } else {
            assert(pre.scopes[i].contains_key(s) && pre.scopes[i][s] == m.scopes[i][s]);
            assert(pre.scopes[j].contains_key(t) && pre.scopes[j][t] == m.scopes[j][t]);
        }
    }
}

} // verus!
