//! The guarantees the resolver gives its callers, stated and proved over the
//! models that the executable contracts speak of.

use vstd::prelude::*;
use crate::error::{Error, SourcePos};
use crate::frame::{
    frame_close, frame_declare, frame_enter_block, frame_exit_block, frame_rod, frame_wf,
    lemma_resolved_slot_in_bounds, lemma_scopes_resolve_cases, scopes_resolve, FrameModel,
};
use crate::mem::{SlotIx, SlotKind};
use crate::stack::{
    capture_chain, captured_text, lemma_capture_chain_len, lemma_lookup_frame_cases,
    lemma_lookup_frame_from_evidence, lookup_frame, resolve_spec, stack_models_wf,
};
use crate::symbol::{intern_spec, lemma_intern_idempotent, texts_distinct, Symbol};

verus! {

/// Distinct symbols declared in the same block never share a slot: this is
/// an invariant of every well-formed frame.
pub proof fn lemma_same_block_distinct_slots(f: FrameModel, i: int, s1: Symbol, s2: Symbol)
    requires
        frame_wf(f),
        0 <= i < f.scopes.len(),
        f.scopes[i].contains_key(s1),
        f.scopes[i].contains_key(s2),
        s1 != s2,
    ensures
        f.scopes[i][s1] != f.scopes[i][s2],
{
}

/// Declaring two distinct symbols in the same block, when both declarations
/// succeed, allocates two distinct slots, and each symbol afterwards
/// resolves to its own slot.
pub proof fn lemma_two_declarations_distinct(
    f: FrameModel,
    s1: Symbol,
    s2: Symbol,
    p1: SourcePos,
    p2: SourcePos,
)
    requires
        f.scopes.len() > 0,
        f.slots.len() + 1 <= usize::MAX,
        s1 != s2,
        frame_declare(f, s1, p1).1 is Ok,
        frame_declare(frame_declare(f, s1, p1).0, s2, p2).1 is Ok,
    ensures
        ({
            let (f1, r1) = frame_declare(f, s1, p1);
            let (f2, r2) = frame_declare(f1, s2, p2);
            &&& r1.unwrap() != r2.unwrap()
            &&& scopes_resolve(f2.scopes, s1) == Some(r1.unwrap())
            &&& scopes_resolve(f2.scopes, s2) == Some(r2.unwrap())
        }),
{
    let (f1, r1) = frame_declare(f, s1, p1);
    let (f2, r2) = frame_declare(f1, s2, p2);
    assert(f2.scopes.last().contains_key(s1));
    assert(f2.scopes.last()[s1] == r1.unwrap());
    assert(f2.scopes.last()[s2] == r2.unwrap());
}

/// Declaring the same symbol twice in the same block fails the second time
/// with `DuplicateVariable`, allocates nothing, and leaves the first
/// declaration's slot in place and resolvable.
pub proof fn lemma_duplicate_declaration(f: FrameModel, sym: Symbol, p1: SourcePos, p2: SourcePos)
    requires
        f.scopes.len() > 0,
        frame_declare(f, sym, p1).1 is Ok,
    ensures
        ({
            let (f1, r1) = frame_declare(f, sym, p1);
            let (f2, r2) = frame_declare(f1, sym, p2);
            &&& r2 == Err::<SlotIx, Error>(Error::DuplicateVariable { symbol: sym, pos: p2 })
            &&& f2 == f1
            &&& scopes_resolve(f1.scopes, sym) == Some(r1.unwrap())
        }),
{
    let (f1, r1) = frame_declare(f, sym, p1);
    assert(f1.scopes.last().contains_key(sym));
}

/// Shadowing: a symbol redeclared in a nested block resolves to the inner
/// slot while that block is open, and back to the outer slot once it is
/// exited.  The two slots are distinct.
pub proof fn lemma_shadowing(f: FrameModel, sym: Symbol, p1: SourcePos, p2: SourcePos)
    requires
        f.scopes.len() > 0,
        f.slots.len() + 1 <= usize::MAX,
        frame_declare(f, sym, p1).1 is Ok,
    ensures
        ({
            let (f1, r1) = frame_declare(f, sym, p1);
            let f2 = frame_enter_block(f1);
            let (f3, r3) = frame_declare(f2, sym, p2);
            let f4 = frame_exit_block(f3);
            &&& r3 is Ok
            &&& r3.unwrap() != r1.unwrap()
            &&& scopes_resolve(f3.scopes, sym) == Some(r3.unwrap())
            &&& scopes_resolve(f4.scopes, sym) == Some(r1.unwrap())
        }),
{
    let (f1, r1) = frame_declare(f, sym, p1);
    let f2 = frame_enter_block(f1);
    let (f3, r3) = frame_declare(f2, sym, p2);
    let f4 = frame_exit_block(f3);
    assert(f2.scopes.last() =~= Map::<Symbol, SlotIx>::empty());
    assert(!f2.scopes.last().contains_key(sym));
    assert(f3.scopes.last().contains_key(sym));
    assert(f4.scopes =~= f1.scopes);
    assert(f1.scopes.last().contains_key(sym) && f1.scopes.last()[sym] == r1.unwrap());
}

/// A symbol declared nowhere in the active frame stack resolves to
/// `UndeclaredVariable`, and the whole state is left untouched.
pub proof fn lemma_undeclared_everywhere(
    frames: Seq<FrameModel>,
    texts: Seq<Seq<char>>,
    sym: Symbol,
    pos: SourcePos,
)
    requires
        forall|i: int, j: int|
            0 <= i < frames.len() && 0 <= j < frames[i].scopes.len() ==> !(
            #[trigger] frames[i].scopes[j]).contains_key(sym),
    ensures
        resolve_spec(frames, texts, sym, pos) == (
            frames,
            texts,
            Err::<SlotIx, Error>(Error::UndeclaredVariable { symbol: sym, pos }),
        ),
{
    assert forall|i: int| 0 <= i < frames.len() implies scopes_resolve(
        (#[trigger] frames[i]).scopes,
        sym,
    ) is None by {
        lemma_scopes_resolve_cases(frames[i].scopes, sym);
        if scopes_resolve(frames[i].scopes, sym) is Some {
            let j = choose|j: int|
                0 <= j < frames[i].scopes.len() && (#[trigger] frames[i].scopes[j]).contains_key(
                    sym,
                ) && frames[i].scopes[j][sym] == scopes_resolve(frames[i].scopes, sym).unwrap();
            assert(false);
        }
    }
    lemma_lookup_frame_cases(frames, sym);
    if lookup_frame(frames, sym) != -1 {
        assert(false);
    }
}

/// Exiting a block withdraws its declarations: a symbol declared only in the
/// innermost block no longer resolves anywhere in the frame once that block
/// is exited.
pub proof fn lemma_exit_block_removes_declarations(f: FrameModel, sym: Symbol)
    requires
        f.scopes.len() > 0,
        forall|i: int| 0 <= i < f.scopes.len() - 1 ==> !(#[trigger] f.scopes[i]).contains_key(sym),
    ensures
        scopes_resolve(frame_exit_block(f).scopes, sym) is None,
{
    lemma_scopes_resolve_cases(frame_exit_block(f).scopes, sym);
    if scopes_resolve(frame_exit_block(f).scopes, sym) is Some {
        let i = choose|i: int|
            0 <= i < f.scopes.drop_last().len() && (#[trigger] f.scopes.drop_last()[i]).contains_key(
                sym,
            );
        assert(f.scopes[i].contains_key(sym));
        assert(false);
    }
}

/// A chain threaded through frames none of whose root blocks know the
/// capture symbol yet: every frame gains exactly one new slot, a `Capture`
/// forwarding to the slot allocated in the frame immediately before it (the
/// origin's slot for the first one), and the innermost allocation is what
/// the chain yields.
pub proof fn lemma_capture_chain_fresh(fs: Seq<FrameModel>, cap: Symbol, from: SlotIx)
    requires
        forall|j: int| 0 <= j < fs.len() ==> (#[trigger] fs[j]).scopes.len() > 0,
        forall|j: int| 0 <= j < fs.len() ==> !(#[trigger] fs[j]).scopes[0].contains_key(cap),
    ensures
        ({
            let r = capture_chain(fs, cap, from);
            &&& r.0.len() == fs.len()
            &&& (forall|j: int|
                0 <= j < fs.len() ==> (#[trigger] r.0[j]).slots == fs[j].slots.push(
                    SlotKind::Capture {
                        from: if j == 0 {
                            from
                        } else {
                            SlotIx(fs[j - 1].slots.len() as usize)
                        },
                    },
                ))
            &&& (forall|j: int|
                0 <= j < fs.len() ==> (#[trigger] r.0[j]).scopes == fs[j].scopes.update(
                    0,
                    fs[j].scopes[0].insert(cap, SlotIx(fs[j].slots.len() as usize)),
                ))
            &&& r.1 == (if fs.len() == 0 {
                from
            } else {
                SlotIx(fs.last().slots.len() as usize)
            })
        }),
    decreases fs.len(),
{
    if fs.len() > 0 {
        let step = frame_rod(fs.first(), cap, SlotKind::Capture { from });
        assert(fs.first() == fs[0]);
        assert(step.1 == SlotIx(fs[0].slots.len() as usize));
        assert forall|j: int| 0 <= j < fs.drop_first().len() implies (
        #[trigger] fs.drop_first()[j]).scopes.len() > 0 && !fs.drop_first()[j].scopes[0].contains_key(
            cap,
        ) by {
            assert(fs.drop_first()[j] == fs[j + 1]);
        }
        lemma_capture_chain_fresh(fs.drop_first(), cap, step.1);
        let rest = capture_chain(fs.drop_first(), cap, step.1);
        let r = capture_chain(fs, cap, from);
        assert(r.0 == seq![step.0] + rest.0);
        assert forall|j: int| 0 <= j < fs.len() implies (#[trigger] r.0[j]).slots
            == fs[j].slots.push(
            SlotKind::Capture {
                from: if j == 0 {
                    from
                } else {
                    SlotIx(fs[j - 1].slots.len() as usize)
                },
            },
        ) && r.0[j].scopes == fs[j].scopes.update(
            0,
            fs[j].scopes[0].insert(cap, SlotIx(fs[j].slots.len() as usize)),
        ) by {
            if j > 0 {
                assert(r.0[j] == rest.0[j - 1]);
                assert(fs.drop_first()[j - 1] == fs[j]);
                if j > 1 {
                    assert(fs.drop_first()[j - 2] == fs[j - 1]);
                }
            }
        }
        if fs.drop_first().len() > 0 {
            assert(fs.drop_first().last() == fs.last());
        }
    }
}

/// Capture marks the origin as closed and installs the chain.  After a
/// successful cross-frame resolve whose capture symbol is new to every
/// intermediate frame: frames under the origin are untouched; the origin
/// frame keeps its blocks and has exactly the captured slot overwritten
/// with `Closed`; every frame strictly inside the origin gains exactly one
/// slot, a `Capture` forwarding to the slot of the frame immediately
/// enclosing it; and the returned slot is the innermost frame's new one.
pub proof fn lemma_capture_closes_origin_and_chains(
    frames: Seq<FrameModel>,
    texts: Seq<Seq<char>>,
    sym: Symbol,
    pos: SourcePos,
)
    requires
        stack_models_wf(frames),
        0 <= lookup_frame(frames, sym) < frames.len() - 1,
        forall|i: int|
            lookup_frame(frames, sym) < i < frames.len() ==> !(
            #[trigger] frames[i]).scopes[0].contains_key(
                intern_spec(texts, captured_text(texts[sym.0 as int])).1,
            ),
    ensures
        ({
            let k = lookup_frame(frames, sym);
            let origin = scopes_resolve(frames[k].scopes, sym).unwrap();
            let cap = intern_spec(texts, captured_text(texts[sym.0 as int])).1;
            let out = resolve_spec(frames, texts, sym, pos);
            &&& out.0.len() == frames.len()
            &&& (forall|i: int| 0 <= i < k ==> out.0[i] == frames[i])
            &&& out.0[k].scopes == frames[k].scopes
            &&& out.0[k].slots == frames[k].slots.update(origin.0 as int, SlotKind::Closed)
            &&& (forall|i: int|
                k < i < frames.len() ==> (#[trigger] out.0[i]).slots == frames[i].slots.push(
                    SlotKind::Capture {
                        from: if i == k + 1 {
                            origin
                        } else {
                            SlotIx(frames[i - 1].slots.len() as usize)
                        },
                    },
                ))
            &&& (forall|i: int|
                k < i < frames.len() ==> (#[trigger] out.0[i]).scopes == frames[i].scopes.update(
                    0,
                    frames[i].scopes[0].insert(cap, SlotIx(frames[i].slots.len() as usize)),
                ))
            &&& out.2 == Ok::<SlotIx, Error>(
                SlotIx(frames[frames.len() - 1].slots.len() as usize),
            )
        }),
{
    let k = lookup_frame(frames, sym);
    lemma_lookup_frame_cases(frames, sym);
    let origin = scopes_resolve(frames[k].scopes, sym).unwrap();
    let cap = intern_spec(texts, captured_text(texts[sym.0 as int])).1;
    let closed = frames.update(k, frame_close(frames[k], origin));
    let fs = closed.skip(k + 1);
    assert forall|j: int| 0 <= j < fs.len() implies #[trigger] fs[j] == frames[k + 1 + j] by {
        assert(fs[j] == closed[k + 1 + j]);
    }
    assert forall|j: int| 0 <= j < fs.len() implies (#[trigger] fs[j]).scopes.len() > 0 && !fs[j].scopes[0].contains_key(
        cap,
    ) by {
        assert(fs[j] == frames[k + 1 + j]);
    }
    lemma_capture_chain_fresh(fs, cap, origin);
    let chained = capture_chain(fs, cap, origin);
    let out = resolve_spec(frames, texts, sym, pos);
    assert(out.0 == closed.take(k + 1) + chained.0);
    assert(fs.len() == frames.len() - k - 1);
    assert forall|i: int| k < i < frames.len() implies #[trigger] out.0[i] == chained.0[i - k
        - 1] by {}
    assert(out.0[k] == closed[k]);
    assert forall|i: int| 0 <= i < k implies #[trigger] out.0[i] == frames[i] by {
        assert(out.0[i] == closed[i]);
    }
    assert(fs.last() == frames[frames.len() - 1]);
}

/// Every successful cross-frame resolve closes the origin: whatever state
/// the capture chain is in, the origin frame leaves the call with the
/// resolved variable's slot overwritten as `Closed` and its blocks intact.
pub proof fn lemma_capture_always_closes_origin(
    frames: Seq<FrameModel>,
    texts: Seq<Seq<char>>,
    sym: Symbol,
    pos: SourcePos,
)
    requires
        0 <= lookup_frame(frames, sym) < frames.len() - 1,
    ensures
        ({
            let k = lookup_frame(frames, sym);
            let origin = scopes_resolve(frames[k].scopes, sym).unwrap();
            let out = resolve_spec(frames, texts, sym, pos);
            &&& out.2 is Ok
            &&& out.0[k].slots == frames[k].slots.update(origin.0 as int, SlotKind::Closed)
            &&& out.0[k].scopes == frames[k].scopes
            &&& (forall|i: int| 0 <= i < k ==> out.0[i] == frames[i])
        }),
{
    let k = lookup_frame(frames, sym);
    let origin = scopes_resolve(frames[k].scopes, sym).unwrap();
    let closed = frames.update(k, frame_close(frames[k], origin));
    let out = resolve_spec(frames, texts, sym, pos);
    assert(out.0 == closed.take(k + 1) + capture_chain(
        closed.skip(k + 1),
        intern_spec(texts, captured_text(texts[sym.0 as int])).1,
        origin,
    ).0);
    assert(out.0[k] == closed[k]);
    assert forall|i: int| 0 <= i < k implies #[trigger] out.0[i] == frames[i] by {
        assert(out.0[i] == closed[i]);
    }
}

/// Adding an entry for a different symbol to the root block changes no
/// other symbol's resolution.
proof fn lemma_scopes_resolve_root_insert(
    scopes: Seq<Map<Symbol, SlotIx>>,
    cap: Symbol,
    ix: SlotIx,
    sym: Symbol,
)
    requires
        cap != sym,
        scopes.len() > 0,
    ensures
        scopes_resolve(scopes.update(0, scopes[0].insert(cap, ix)), sym) == scopes_resolve(
            scopes,
            sym,
        ),
    decreases scopes.len(),
{
    let s2 = scopes.update(0, scopes[0].insert(cap, ix));
    if scopes.len() == 1 {
        assert(s2.last() == scopes[0].insert(cap, ix));
        if !scopes.last().contains_key(sym) {
            assert(!s2.last().contains_key(sym));
            assert(s2.drop_last() =~= Seq::<Map<Symbol, SlotIx>>::empty());
            assert(scopes.drop_last() =~= Seq::<Map<Symbol, SlotIx>>::empty());
        }
    } else {
        assert(s2.last() == scopes.last());
        assert(s2.drop_last() =~= scopes.drop_last().update(0, scopes[0].insert(cap, ix)));
        assert(scopes.drop_last()[0] == scopes[0]);
        lemma_scopes_resolve_root_insert(scopes.drop_last(), cap, ix, sym);
    }
}

/// A resolve-or-declare of the capture symbol leaves every other symbol's
/// resolution in the frame as it was.
proof fn lemma_rod_preserves_other(f: FrameModel, cap: Symbol, kind: SlotKind, sym: Symbol)
    requires
        cap != sym,
        f.scopes.len() > 0,
    ensures
        scopes_resolve(frame_rod(f, cap, kind).0.scopes, sym) == scopes_resolve(f.scopes, sym),
{
    if !f.scopes.first().contains_key(cap) {
        assert(f.scopes.first() == f.scopes[0]);
        lemma_scopes_resolve_root_insert(f.scopes, cap, SlotIx(f.slots.len() as usize), sym);
    }
}

/// Threading a capture chain changes no other symbol's resolution in any of
/// the frames it runs through.
proof fn lemma_chain_preserves_other(fs: Seq<FrameModel>, cap: Symbol, from: SlotIx, sym: Symbol)
    requires
        cap != sym,
        forall|j: int| 0 <= j < fs.len() ==> (#[trigger] fs[j]).scopes.len() > 0,
    ensures
        forall|j: int|
            0 <= j < fs.len() ==> scopes_resolve(
                (#[trigger] capture_chain(fs, cap, from).0[j]).scopes,
                sym,
            ) == scopes_resolve(fs[j].scopes, sym),
    decreases fs.len(),
{
    if fs.len() > 0 {
        let step = frame_rod(fs.first(), cap, SlotKind::Capture { from });
        assert(fs.first() == fs[0]);
        lemma_rod_preserves_other(fs.first(), cap, SlotKind::Capture { from }, sym);
        assert forall|j: int| 0 <= j < fs.drop_first().len() implies (
        #[trigger] fs.drop_first()[j]).scopes.len() > 0 by {
            assert(fs.drop_first()[j] == fs[j + 1]);
        }
        lemma_chain_preserves_other(fs.drop_first(), cap, step.1, sym);
        lemma_capture_chain_len(fs.drop_first(), cap, step.1);
        let rest = capture_chain(fs.drop_first(), cap, step.1);
        let r = capture_chain(fs, cap, from);
        assert(r.0 == seq![step.0] + rest.0);
        assert forall|j: int| 0 <= j < fs.len() implies scopes_resolve(
            (#[trigger] r.0[j]).scopes,
            sym,
        ) == scopes_resolve(fs[j].scopes, sym) by {
            if j > 0 {
                assert(r.0[j] == rest.0[j - 1]);
                assert(fs.drop_first()[j - 1] == fs[j]);
            } else {
                assert(r.0[0] == step.0);
            }
        }
    }
}

/// Re-threading an already threaded chain reuses every slot and changes
/// nothing: the deduplication of capture slots.
proof fn lemma_chain_idempotent(fs: Seq<FrameModel>, cap: Symbol, from: SlotIx)
    requires
        forall|j: int| 0 <= j < fs.len() ==> (#[trigger] fs[j]).scopes.len() > 0,
    ensures
        ({
            let r = capture_chain(fs, cap, from);
            capture_chain(r.0, cap, from) == (r.0, r.1)
        }),
    decreases fs.len(),
{
    if fs.len() > 0 {
        let step = frame_rod(fs.first(), cap, SlotKind::Capture { from });
        assert(fs.first() == fs[0]);
        assert(step.0.scopes[0].contains_key(cap) && step.0.scopes[0][cap] == step.1);
        assert forall|j: int| 0 <= j < fs.drop_first().len() implies (
        #[trigger] fs.drop_first()[j]).scopes.len() > 0 by {
            assert(fs.drop_first()[j] == fs[j + 1]);
        }
        lemma_chain_idempotent(fs.drop_first(), cap, step.1);
        let rest = capture_chain(fs.drop_first(), cap, step.1);
        let r = capture_chain(fs, cap, from);
        assert(r.0 == seq![step.0] + rest.0);
        lemma_capture_chain_len(fs.drop_first(), cap, step.1);
        assert(r.0.len() > 0 && r.0.first() == step.0);
        let step2 = frame_rod(r.0.first(), cap, SlotKind::Capture { from });
        assert(step2.0 == step.0 && step2.1 == step.1);
        assert(r.0.drop_first() =~= rest.0);
        let rest2 = capture_chain(r.0.drop_first(), cap, step.1);
        assert(rest2 == (rest.0, rest.1));
        assert(capture_chain(r.0, cap, from).0 == seq![step2.0] + rest2.0);
        assert(seq![step2.0] + rest2.0 =~= r.0);
    }
}

/// Capturing idempotence: resolving the same symbol a second time, from the
/// same frame stack, returns the identical slot, adds no slot anywhere, and
/// leaves the interner as it was.
pub proof fn lemma_resolve_idempotent(
    frames: Seq<FrameModel>,
    texts: Seq<Seq<char>>,
    sym: Symbol,
    p1: SourcePos,
    p2: SourcePos,
)
    requires
        stack_models_wf(frames),
        texts_distinct(texts),
        (sym.0 as int) < texts.len(),
        texts.len() <= usize::MAX,
    ensures
        ({
            let out1 = resolve_spec(frames, texts, sym, p1);
            let out2 = resolve_spec(out1.0, out1.1, sym, p2);
            &&& out2.0 == out1.0
            &&& out2.1 == out1.1
            &&& (out1.2 is Ok ==> out2.2 == out1.2)
        }),
{
    let k = lookup_frame(frames, sym);
    lemma_lookup_frame_cases(frames, sym);
    let out1 = resolve_spec(frames, texts, sym, p1);
    if k == -1 || k == frames.len() - 1 {
        // Nothing changed, so the second call retraces the first.
    } else {
        let ct = captured_text(texts[sym.0 as int]);
        let interned = intern_spec(texts, ct);
        let cap = interned.1;
        let t1 = interned.0;
        lemma_intern_idempotent(texts, ct);
        // The capture symbol can never be the symbol being resolved: their
        // texts differ in length by the non-empty marker.
        reveal_strlit("@closed");
        assert(crate::stack::capture_marker().len() == 7);
        assert(t1[sym.0 as int] == texts[sym.0 as int]);
        assert(cap != sym) by {
            if cap == sym {
                assert(t1[cap.0 as int] == ct);
                assert(ct.len() == texts[sym.0 as int].len() + 7);
            }
        }
        let origin = scopes_resolve(frames[k].scopes, sym).unwrap();
        let closed = frames.update(k, frame_close(frames[k], origin));
        let fs = closed.skip(k + 1);
        lemma_capture_chain_len(fs, cap, origin);
        let chained = capture_chain(fs, cap, origin);
        assert(out1.0 == closed.take(k + 1) + chained.0);
        assert(out1.0.len() == frames.len());
        assert forall|j: int| 0 <= j < fs.len() implies #[trigger] fs[j] == frames[k + 1 + j] by {
            assert(fs[j] == closed[k + 1 + j]);
        }
        assert forall|j: int| 0 <= j < fs.len() implies (#[trigger] fs[j]).scopes.len() > 0 by {
            assert(fs[j] == frames[k + 1 + j]);
        }
        // The second search still lands on the origin frame.
        lemma_chain_preserves_other(fs, cap, origin, sym);
        assert forall|i: int| k < i < out1.0.len() implies scopes_resolve(
            (#[trigger] out1.0[i]).scopes,
            sym,
        ) is None by {
            assert(out1.0[i] == chained.0[i - k - 1]);
            assert(scopes_resolve(chained.0[i - k - 1].scopes, sym) == scopes_resolve(
                fs[i - k - 1].scopes,
                sym,
            ));
            assert(fs[i - k - 1] == frames[i]);
        }
        assert(out1.0[k] == closed[k]);
        assert(out1.0[k].scopes == frames[k].scopes);
        lemma_lookup_frame_from_evidence(out1.0, sym, k);
        // Interning again finds the same capture symbol and adds nothing.
        assert(captured_text(t1[sym.0 as int]) == ct);
        assert(intern_spec(t1, ct) == (t1, cap));
        // Closing the already closed origin slot changes nothing.
        let origin2 = scopes_resolve(out1.0[k].scopes, sym).unwrap();
        assert(origin2 == origin);
        assert(frame_wf(frames[k]));
        lemma_resolved_slot_in_bounds(frames[k], sym);
        assert(frame_close(out1.0[k], origin) =~= out1.0[k]) by {
            assert(out1.0[k].slots == frames[k].slots.update(origin.0 as int, SlotKind::Closed));
            assert(out1.0[k].slots.update(origin.0 as int, SlotKind::Closed) =~= out1.0[k].slots);
        }
        let closed2 = out1.0.update(k, frame_close(out1.0[k], origin));
        assert(closed2 =~= out1.0);
        // Re-threading the chain reuses every slot.
        assert(closed2.skip(k + 1) =~= chained.0);
        lemma_chain_idempotent(fs, cap, origin);
        assert(capture_chain(chained.0, cap, origin) == (chained.0, chained.1));
        let out2 = resolve_spec(out1.0, t1, sym, p2);
        assert(out2.0 == closed2.take(k + 1) + capture_chain(closed2.skip(k + 1), cap, origin).0);
        assert(closed2.take(k + 1) =~= closed.take(k + 1));
        assert(out2.0 == out1.0);
        assert(out2.2 == Ok::<SlotIx, Error>(chained.1));
    }
}

} // verus!
