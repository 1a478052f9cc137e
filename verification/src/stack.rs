//! The resolver proper: a stack of frames for the functions nested around
//! the point of compilation, and the cross-frame closure-capture protocol.

use vstd::prelude::*;
use crate::error::{Error, SourcePos};
use crate::frame::{
    frame_close, frame_declare, frame_enter_block, frame_exit_block, frame_rod, frame_wf,
    lemma_resolved_slot_in_bounds, scopes_resolve, Frame, FrameModel,
};
use crate::mem::{FrameInfo, SlotIx, SlotKind};
use crate::symbol::{intern_spec, Interner, Symbol};

verus! {

/// Every frame on the stack is internally sound and keeps its root block
/// open for the whole of its life.
pub open spec fn stack_models_wf(frames: Seq<FrameModel>) -> bool {
    forall|i: int|
        0 <= i < frames.len() ==> frame_wf(#[trigger] frames[i]) && frames[i].scopes.len() >= 1
}

/// Index of the innermost frame whose own blocks resolve `sym`, or `-1`
/// when no frame anywhere does.
pub open spec fn lookup_frame(frames: Seq<FrameModel>, sym: Symbol) -> int
    decreases frames.len(),
{
    if frames.len() == 0 {
        -1
    } else if scopes_resolve(frames.last().scopes, sym) is Some {
        frames.len() - 1
    } else {
        lookup_frame(frames.drop_last(), sym)
    }
}

pub proof fn lemma_lookup_frame_cases(frames: Seq<FrameModel>, sym: Symbol)
    ensures
        lookup_frame(frames, sym) == -1 ==> forall|i: int|
            0 <= i < frames.len() ==> scopes_resolve((#[trigger] frames[i]).scopes, sym) is None,
        lookup_frame(frames, sym) != -1 ==> 0 <= lookup_frame(frames, sym) < frames.len()
            && scopes_resolve(frames[lookup_frame(frames, sym)].scopes, sym) is Some && (forall|
            i: int,
        |
            lookup_frame(frames, sym) < i < frames.len() ==> scopes_resolve(
                (#[trigger] frames[i]).scopes,
                sym,
            ) is None),
    decreases frames.len(),
{
    if frames.len() > 0 && scopes_resolve(frames.last().scopes, sym) is None {
        lemma_lookup_frame_cases(frames.drop_last(), sym);
        let k = lookup_frame(frames, sym);
        if k == -1 {
            assert forall|i: int| 0 <= i < frames.len() implies scopes_resolve(
                (#[trigger] frames[i]).scopes,
                sym,
            ) is None by {
                if i < frames.len() - 1 {
                    assert(frames.drop_last()[i] == frames[i]);
                }
            }
        } else {
            assert(frames.drop_last()[k] == frames[k]);
            assert forall|i: int| k < i < frames.len() implies scopes_resolve(
                (#[trigger] frames[i]).scopes,
                sym,
            ) is None by {
                if i < frames.len() - 1 {
                    assert(frames.drop_last()[i] == frames[i]);
                }
            }
        }
    }
}

/// The converse: evidence of a hit at `k` with nothing above it pins
/// `lookup_frame` to `k`.
pub proof fn lemma_lookup_frame_from_evidence(frames: Seq<FrameModel>, sym: Symbol, k: int)
    requires
        0 <= k < frames.len(),
        scopes_resolve(frames[k].scopes, sym) is Some,
        forall|i: int|
            k < i < frames.len() ==> scopes_resolve((#[trigger] frames[i]).scopes, sym) is None,
    ensures
        lookup_frame(frames, sym) == k,
    decreases frames.len(),
{
    if k < frames.len() - 1 {
        assert(frames.drop_last()[k] == frames[k]);
        assert forall|i: int| k < i < frames.drop_last().len() implies scopes_resolve(
            (#[trigger] frames.drop_last()[i]).scopes,
            sym,
        ) is None by {
            assert(frames.drop_last()[i] == frames[i]);
        }
        lemma_lookup_frame_from_evidence(frames.drop_last(), sym, k);
    }
}

/// Thread a capture through consecutive frames, outermost first: each frame
/// reuses or allocates its slot for `cap` forwarding to the slot the
/// previous frame yielded.  Returns the rewritten frames and the slot the
/// innermost frame ends up with.
pub open spec fn capture_chain(frames: Seq<FrameModel>, cap: Symbol, from: SlotIx) -> (
    Seq<FrameModel>,
    SlotIx,
)
    decreases frames.len(),
{
    if frames.len() == 0 {
        (frames, from)
    } else {
        let step = frame_rod(frames.first(), cap, SlotKind::Capture { from });
        let rest = capture_chain(frames.drop_first(), cap, step.1);
        (seq![step.0] + rest.0, rest.1)
    }
}

pub proof fn lemma_capture_chain_len(frames: Seq<FrameModel>, cap: Symbol, from: SlotIx)
    ensures
        capture_chain(frames, cap, from).0.len() == frames.len(),
    decreases frames.len(),
{
    if frames.len() > 0 {
        let step = frame_rod(frames.first(), cap, SlotKind::Capture { from });
        lemma_capture_chain_len(frames.drop_first(), cap, step.1);
    }
}

/// Peeling the chain from the inside: capturing through `frames` and then
/// one more frame is one `frame_rod` step on that frame.
pub proof fn lemma_capture_chain_snoc(
    frames: Seq<FrameModel>,
    f: FrameModel,
    cap: Symbol,
    from: SlotIx,
)
    ensures
        ({
            let whole = capture_chain(frames.push(f), cap, from);
            let rec = capture_chain(frames, cap, from);
            let step = frame_rod(f, cap, SlotKind::Capture { from: rec.1 });
            whole.0 == rec.0.push(step.0) && whole.1 == step.1
        }),
    decreases frames.len(),
{
    reveal_with_fuel(capture_chain, 3);
    if frames.len() == 0 {
        let step = frame_rod(f, cap, SlotKind::Capture { from });
        assert(frames.push(f).first() == f);
        assert(frames.push(f).drop_first() =~= Seq::<FrameModel>::empty());
        assert(capture_chain(frames.push(f).drop_first(), cap, step.1) == (
            frames.push(f).drop_first(),
            step.1,
        ));
        assert(seq![step.0] + frames.push(f).drop_first() =~= frames.push(step.0));
    } else {
        let step0 = frame_rod(frames.first(), cap, SlotKind::Capture { from });
        assert(frames.push(f).first() == frames.first());
        assert(frames.push(f).drop_first() =~= frames.drop_first().push(f));
        lemma_capture_chain_snoc(frames.drop_first(), f, cap, step0.1);
        let inner = capture_chain(frames.drop_first(), cap, step0.1);
        let stepf = frame_rod(f, cap, SlotKind::Capture { from: inner.1 });
        assert(seq![step0.0] + inner.0.push(stepf.0) =~= (seq![step0.0] + inner.0).push(stepf.0));
    }
}

/// The marker appended to a captured variable's text.  It contains `@`,
/// which no source-level identifier may contain, so synthesized capture
/// names can never collide with user-written ones.
pub open spec fn capture_marker() -> Seq<char> {
    "@closed"@
}

/// Text of the synthesized symbol that keys a variable's capture slots.
pub open spec fn captured_text(text: Seq<char>) -> Seq<char> {
    text + capture_marker()
}

/// What one `resolve` call does, as a function of the whole state: the
/// frames, the interner's text table, and the outcome.
///
/// Searching innermost-outwards either misses every frame (an error), hits
/// the innermost frame (a plain local access), or hits an ancestor: then the
/// capture symbol is interned, the origin slot is closed, and a capture
/// chain is threaded through every frame below the origin.
pub open spec fn resolve_spec(
    frames: Seq<FrameModel>,
    texts: Seq<Seq<char>>,
    sym: Symbol,
    pos: SourcePos,
) -> (Seq<FrameModel>, Seq<Seq<char>>, Result<SlotIx, Error>) {
    let k = lookup_frame(frames, sym);
    if k == -1 {
        (frames, texts, Err(Error::UndeclaredVariable { symbol: sym, pos }))
    } else if k == frames.len() - 1 {
        (frames, texts, Ok(scopes_resolve(frames[k].scopes, sym).unwrap()))
    } else {
        let interned = intern_spec(texts, captured_text(texts[sym.0 as int]));
        let origin = scopes_resolve(frames[k].scopes, sym).unwrap();
        let closed = frames.update(k, frame_close(frames[k], origin));
        let chained = capture_chain(closed.skip(k + 1), interned.1, origin);
        (closed.take(k + 1) + chained.0, interned.0, Ok(chained.1))
    }
}

/// The function scope stack: one frame per function body currently being
/// compiled, innermost last.  The only component the front end drives.
#[derive(Debug)]
pub struct Stack {
    frames: Vec<Frame>,
}

impl Stack {
    /// The stack of frame models, outermost function first.
    pub closed spec fn view(&self) -> Seq<FrameModel> {
        self.frames@.map_values(|f: Frame| f@)
    }

    pub closed spec fn frames_wf(&self) -> bool {
        forall|i: int| 0 <= i < self.frames@.len() ==> (#[trigger] self.frames@[i]).wf()
    }

    pub open spec fn wf(&self) -> bool {
        self.frames_wf() && stack_models_wf(self@)
    }

    pub fn new() -> (s: Stack)
        ensures
            s@ == Seq::<FrameModel>::empty(),
            s.wf(),
    {
        let s = Stack { frames: Vec::new() };
        proof {
            assert(s@ =~= Seq::<FrameModel>::empty());
        }
        s
    }

    /// Begin compiling a nested function body: push a fresh frame and open
    /// its root block, which stays open until the frame itself is exited.
    pub fn enter_frame(&mut self)
        requires
            old(self).wf(),
        ensures
            final(self).wf(),
            final(self)@ == old(self)@.push(
                (FrameModel {
                    slots: Seq::<SlotKind>::empty(),
                    scopes: seq![Map::<Symbol, SlotIx>::empty()],
                }),
            ),
    {
        let mut frame = Frame::new();
        frame.enter_block();
        proof {
            assert(frame@.scopes =~= seq![Map::<Symbol, SlotIx>::empty()]);
        }
        self.frames.push(frame);
        proof {
            let target = FrameModel {
                slots: Seq::<SlotKind>::empty(),
                scopes: seq![Map::<Symbol, SlotIx>::empty()],
            };
            assert(self@ =~= old(self)@.push(target));
            assert forall|i: int| 0 <= i < self.frames@.len() implies (
            #[trigger] self.frames@[i]).wf() by {
                if i < self.frames@.len() - 1 {
                    assert(self.frames@[i] == old(self).frames@[i]);
                }
            }
            assert forall|i: int| 0 <= i < self@.len() implies frame_wf(#[trigger] self@[i])
                && self@[i].scopes.len() >= 1 by {
                assert(self@[i] == self.frames@[i]@);
                assert(self.frames@[i].wf());
                if i < self@.len() - 1 {
                    assert(self@[i] == old(self)@[i]);
                }
            }
        }
    }

    /// Finish compiling the innermost function: close its root block, pop
    /// the frame, and hand its finalized layout to the code generator.
    /// All nested blocks must already be exited.
    pub fn exit_frame(&mut self) -> (info: FrameInfo)
        requires
            old(self).wf(),
            old(self)@.len() > 0,
            old(self)@.last().scopes.len() == 1,
        ensures
            final(self).wf(),
            final(self)@ == old(self)@.drop_last(),
            info.slots@ == old(self)@.last().slots,
    {
        let mut frame = self.frames.pop().unwrap();
        proof {
            assert(old(self)@.last() == frame@);
        }
        frame.exit_block();
        proof {
            assert(self@ =~= old(self)@.drop_last());
            assert forall|i: int| 0 <= i < self.frames@.len() implies (
            #[trigger] self.frames@[i]).wf() by {
                assert(self.frames@[i] == old(self).frames@[i]);
            }
            assert forall|i: int| 0 <= i < self@.len() implies frame_wf(#[trigger] self@[i])
                && self@[i].scopes.len() >= 1 by {
                assert(self@[i] == old(self)@[i]);
            }
        }
        frame.into_info()
    }

    /// Open a block in the innermost frame.
    pub fn enter_block(&mut self)
        requires
            old(self).wf(),
            old(self)@.len() > 0,
        ensures
            final(self).wf(),
            final(self)@ == old(self)@.update(
                old(self)@.len() - 1,
                frame_enter_block(old(self)@.last()),
            ),
    {
        let mut frame = self.frames.pop().unwrap();
        proof {
            assert(frame == old(self).frames@[old(self).frames@.len() - 1]);
            assert(frame.wf());
            assert(frame@ == old(self)@[old(self)@.len() - 1]);
        }
        frame.enter_block();
        self.frames.push(frame);
        proof {
            self.lemma_top_replaced(*old(self), frame_enter_block(old(self)@.last()));
        }
    }

    /// Exit the innermost block of the innermost frame.  The root block is
    /// not exitable this way: it belongs to `exit_frame`, and unbalanced
    /// enter/exit calls are a caller contract violation.
    pub fn exit_block(&mut self)
        requires
            old(self).wf(),
            old(self)@.len() > 0,
            old(self)@.last().scopes.len() >= 2,
        ensures
            final(self).wf(),
            final(self)@ == old(self)@.update(
                old(self)@.len() - 1,
                frame_exit_block(old(self)@.last()),
            ),
    {
        let mut frame = self.frames.pop().unwrap();
        proof {
            assert(frame == old(self).frames@[old(self).frames@.len() - 1]);
            assert(frame.wf());
            assert(frame@ == old(self)@[old(self)@.len() - 1]);
        }
        frame.exit_block();
        self.frames.push(frame);
        proof {
            self.lemma_top_replaced(*old(self), frame_exit_block(old(self)@.last()));
        }
    }

    /// Declare `symbol` in the innermost block of the innermost frame.
    pub fn declare(&mut self, symbol: Symbol, pos: SourcePos) -> (r: Result<SlotIx, Error>)
        requires
            old(self).wf(),
            old(self)@.len() > 0,
        ensures
            final(self).wf(),
            ({
                let step = frame_declare(old(self)@.last(), symbol, pos);
                final(self)@ == old(self)@.update(old(self)@.len() - 1, step.0) && r == step.1
            }),
    {
        let mut frame = self.frames.pop().unwrap();
        proof {
            assert(frame == old(self).frames@[old(self).frames@.len() - 1]);
            assert(frame.wf());
            assert(frame@ == old(self)@[old(self)@.len() - 1]);
        }
        let r = frame.declare(symbol, pos);
        self.frames.push(frame);
        proof {
            self.lemma_top_replaced(*old(self), frame_declare(old(self)@.last(), symbol, pos).0);
        }
        r
    }

    /// Resolve or silently introduce a `Regular` variable in the innermost
    /// frame's root block, bypassing duplicate checking.
    pub fn resolve_or_declare(&mut self, symbol: Symbol) -> (r: SlotIx)
        requires
            old(self).wf(),
            old(self)@.len() > 0,
        ensures
            final(self).wf(),
            ({
                let step = frame_rod(old(self)@.last(), symbol, SlotKind::Regular);
                final(self)@ == old(self)@.update(old(self)@.len() - 1, step.0) && r == step.1
            }),
    {
        let mut frame = self.frames.pop().unwrap();
        proof {
            assert(frame == old(self).frames@[old(self).frames@.len() - 1]);
            assert(frame.wf());
            assert(frame@ == old(self)@[old(self)@.len() - 1]);
        }
        let r = frame.resolve_or_declare(symbol, SlotKind::Regular);
        self.frames.push(frame);
        proof {
            self.lemma_top_replaced(
                *old(self),
                frame_rod(old(self)@.last(), symbol, SlotKind::Regular).0,
            );
        }
        r
    }

    /// After modifying the top frame through its own contract, the stack is
    /// the old one with its top model replaced; well-formedness carries over
    /// from the untouched frames and the new top.
    proof fn lemma_top_replaced(&self, pre: Stack, target: FrameModel)
        requires
            pre.wf(),
            pre@.len() > 0,
            self.frames@.len() == pre@.len(),
            forall|i: int|
                0 <= i < pre@.len() - 1 ==> #[trigger] self.frames@[i] == pre.frames@[i],
            self.frames@[pre@.len() - 1].wf(),
            self.frames@[pre@.len() - 1]@ == target,
            target.scopes.len() >= 1,
        ensures
            self.wf(),
            self@ == pre@.update(pre@.len() - 1, target),
    {
        let n = pre@.len();
        assert forall|i: int| 0 <= i < self.frames@.len() implies (
        #[trigger] self.frames@[i]).wf() by {
            if i < n - 1 {
                assert(self.frames@[i] == pre.frames@[i]);
                assert(pre.frames@[i].wf());
            }
        }
        assert forall|i: int| 0 <= i < self@.len() implies frame_wf(#[trigger] self@[i])
            && self@[i].scopes.len() >= 1 by {
            assert(self@[i] == self.frames@[i]@);
            assert(self.frames@[i].wf());
            if i < n - 1 {
                assert(self@[i] == pre@[i]);
            }
        }
        assert(self@ =~= pre@.update(n - 1, target));
    }

    /// Locate the innermost frame resolving `symbol`, with the slot it
    /// yields there.
    fn find_origin(&self, symbol: Symbol) -> (r: Option<(usize, SlotIx)>)
        requires
            self.wf(),
        ensures
            match r {
                Some(hit) => (hit.0 as int) == lookup_frame(self@, symbol) && (hit.0 as int)
                    < self@.len() && scopes_resolve(self@[hit.0 as int].scopes, symbol) == Some(
                    hit.1,
                ),
                None => lookup_frame(self@, symbol) == -1,
            },
    {
        let n = self.frames.len();
        proof {
            assert(self@.take(n as int) =~= self@);
        }
        let mut i: usize = n;
        while i > 0
            invariant
                self.wf(),
                n == self.frames@.len(),
                i <= n,
                lookup_frame(self@, symbol) == lookup_frame(self@.take(i as int), symbol),
            decreases i,
        {
            let hit = self.frames[i - 1].resolve(symbol);
            proof {
                assert(self@[i as int - 1] == self.frames@[i as int - 1]@);
                assert(self@.take(i as int).last() == self@[i as int - 1]);
                assert(self@.take(i as int).drop_last() =~= self@.take(i as int - 1));
            }
            match hit {
                Some(ix) => {
                    return Some((i - 1, ix));
                },
                None => {
                    i -= 1;
                },
            }
        }
        proof {
            assert(self@.take(0) =~= Seq::<FrameModel>::empty());
        }
        None
    }

    /// Resolve a reference to `symbol` at the point of compilation.
    ///
    /// A hit in the innermost frame is an ordinary local access.  A hit in
    /// an ancestor frame installs the capture: the origin slot is marked
    /// `Closed`, and every frame between origin (exclusive) and the
    /// innermost one (inclusive) reuses or allocates one `Capture` slot for
    /// the synthesized capture symbol, each forwarding to the slot of the
    /// frame immediately above it.  A miss everywhere is
    /// `UndeclaredVariable`.
    pub fn resolve(&mut self, symbol: Symbol, pos: SourcePos, interner: &mut Interner) -> (r:
        Result<SlotIx, Error>)
        requires
            old(self).wf(),
            old(interner).wf(),
            old(interner).has_symbol(symbol),
        ensures
            final(self).wf(),
            final(interner).wf(),
            ({
                let outcome = resolve_spec(old(self)@, old(interner)@, symbol, pos);
                final(self)@ == outcome.0 && final(interner)@ == outcome.1 && r == outcome.2
            }),
    {
        let ghost m = self@;
        let n = self.frames.len();
        match self.find_origin(symbol) {
            None => Err(Error::undeclared_variable(symbol, pos)),
            Some((k, origin)) => {
                if k == n - 1 {
                    Ok(origin)
                } else {
                    let base = match interner.resolve(symbol) {
                        Some(text) => text.clone(),
                        // Unreachable: the precondition registers `symbol`
                        // with this interner.
                        None => String::new(),
                    };
                    let cap_text = base.concat("@closed");
                    proof {
                        assert(cap_text@ == captured_text(old(interner)@[symbol.0 as int]));
                    }
                    let cap = interner.get_or_intern(cap_text);
                    let ghost origin_frame = m[k as int];
                    proof {
                        assert(frame_wf(origin_frame) && origin_frame.scopes.len() >= 1);
                        lemma_resolved_slot_in_bounds(origin_frame, symbol);
                    }
                    let ghost closed_m = m.update(k as int, frame_close(origin_frame, origin));
                    let mut fr = self.frames.remove(k);
                    proof {
                        assert(fr@ == m[k as int]);
                    }
                    fr.close(origin);
                    self.frames.insert(k, fr);
                    proof {
                        assert(self.frames@ =~= old(self).frames@.update(
                            k as int,
                            self.frames@[k as int],
                        ));
                        assert(self@ =~= closed_m);
                        assert forall|i: int| 0 <= i < self.frames@.len() implies (
                        #[trigger] self.frames@[i]).wf() by {
                            if i != k as int {
                                assert(self.frames@[i] == old(self).frames@[i]);
                            }
                        }
                        assert forall|i: int| 0 <= i < self@.len() implies frame_wf(
                            #[trigger] self@[i],
                        ) && self@[i].scopes.len() >= 1 by {
                            assert(self@[i] == self.frames@[i]@);
                            assert(self.frames@[i].wf());
                            if i != k as int {
                                assert(self@[i] == m[i]);
                            }
                        }
                    }
                    let mut cur = origin;
                    let mut j: usize = k + 1;
                    proof {
                        assert(closed_m.subrange(k as int + 1, j as int) =~= Seq::<
                            FrameModel,
                        >::empty());
                        assert(self@ =~= closed_m.take(j as int) + capture_chain(
                            closed_m.subrange(k as int + 1, j as int),
                            cap,
                            origin,
                        ).0 + closed_m.skip(j as int));
                    }
                    while j < n
                        invariant
                            self.wf(),
                            k < j <= n,
                            n == self.frames@.len(),
                            n == closed_m.len(),
                            (k as int) + 1 <= j as int,
                            ({
                                let part = capture_chain(
                                    closed_m.subrange(k as int + 1, j as int),
                                    cap,
                                    origin,
                                );
                                self@ == closed_m.take(k as int + 1) + part.0 + closed_m.skip(
                                    j as int,
                                ) && cur == part.1
                            }),
                        decreases n - j,
                    {
                        let ghost part = capture_chain(
                            closed_m.subrange(k as int + 1, j as int),
                            cap,
                            origin,
                        );
                        let ghost before = self@;
                        let ghost before_frames = self.frames@;
                        proof {
                            lemma_capture_chain_len(
                                closed_m.subrange(k as int + 1, j as int),
                                cap,
                                origin,
                            );
                            assert(before[j as int] == closed_m.skip(j as int)[0]);
                            assert(before[j as int] == closed_m[j as int]);
                        }
                        let mut fr = self.frames.remove(j);
                        proof {
                            assert(fr@ == before[j as int]);
                        }
                        let ghost step = frame_rod(fr@, cap, SlotKind::Capture { from: cur });
                        cur = fr.resolve_or_declare(cap, SlotKind::Capture { from: cur });
                        self.frames.insert(j, fr);
                        proof {
                            assert(self.frames@ =~= before_frames.update(
                                j as int,
                                self.frames@[j as int],
                            ));
                            assert(self@ =~= before.update(j as int, step.0));
                            lemma_capture_chain_snoc(
                                closed_m.subrange(k as int + 1, j as int),
                                closed_m[j as int],
                                cap,
                                origin,
                            );
                            assert(closed_m.subrange(k as int + 1, j as int + 1) =~= closed_m.subrange(
                                k as int + 1,
                                j as int,
                            ).push(closed_m[j as int]));
                            let part2 = capture_chain(
                                closed_m.subrange(k as int + 1, j as int + 1),
                                cap,
                                origin,
                            );
                            assert(part2.0 == part.0.push(step.0) && part2.1 == step.1);
                            assert(self@ =~= closed_m.take(k as int + 1) + part2.0 + closed_m.skip(
                                j as int + 1,
                            ));
                            assert forall|i: int| 0 <= i < self.frames@.len() implies (
                            #[trigger] self.frames@[i]).wf() by {
                                if i != j as int {
                                    assert(self.frames@[i] == before_frames[i]);
                                }
                            }
                            assert forall|i: int| 0 <= i < self@.len() implies frame_wf(
                                #[trigger] self@[i],
                            ) && self@[i].scopes.len() >= 1 by {
                                assert(self@[i] == self.frames@[i]@);
                                assert(self.frames@[i].wf());
                                if i != j as int {
                                    assert(self@[i] == before[i]);
                                } else {
                                    assert(step.0.scopes.len() == before[j as int].scopes.len());
                                }
                            }
                        }
                        j += 1;
                    }
                    proof {
                        assert(closed_m.subrange(k as int + 1, n as int) =~= closed_m.skip(
                            k as int + 1,
                        ));
                        assert(closed_m.skip(n as int) =~= Seq::<FrameModel>::empty());
                        let chained = capture_chain(closed_m.skip(k as int + 1), cap, origin);
                        assert(self@ =~= closed_m.take(k as int + 1) + chained.0);
                    }
                    Ok(cur)
                }
            },
        }
    }

}

impl Default for Stack {
    /// An empty stack: no function body is being compiled yet.
    fn default() -> (s: Stack)
        ensures
            s@ == Seq::<FrameModel>::empty(),
            s.wf(),
    {
        Stack::new()
    }
}

} // verus!
