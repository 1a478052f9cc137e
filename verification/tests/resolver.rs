use lexscope::error::{Error, SourcePos};
use lexscope::mem::{SlotIx, SlotKind};
use lexscope::stack::Stack;
use lexscope::symbol::Interner;

fn pos(line: u32, column: u32) -> SourcePos {
    SourcePos { line, column }
}

#[test]
fn local_declare_and_resolve() {
    // Scenario A: one frame declares `x`; resolving inside it returns the
    // declared slot, and the finalized layout reports it `Regular`.
    let mut interner = Interner::new();
    let mut stack = Stack::new();
    let x = interner.get_or_intern(String::from("x"));

    stack.enter_frame();
    let declared = stack.declare(x, pos(1, 1)).unwrap();
    let resolved = stack.resolve(x, pos(2, 1), &mut interner).unwrap();
    assert_eq!(declared, resolved);

    let info = stack.exit_frame();
    assert_eq!(info.slots, vec![SlotKind::Regular]);
}

#[test]
fn distinct_symbols_get_distinct_slots() {
    let mut interner = Interner::new();
    let mut stack = Stack::new();
    let a = interner.get_or_intern(String::from("a"));
    let b = interner.get_or_intern(String::from("b"));

    stack.enter_frame();
    let slot_a = stack.declare(a, pos(1, 1)).unwrap();
    let slot_b = stack.declare(b, pos(1, 5)).unwrap();
    assert_ne!(slot_a, slot_b);
    assert_eq!(slot_a, SlotIx(0));
    assert_eq!(slot_b, SlotIx(1));
    assert_eq!(stack.resolve(a, pos(2, 1), &mut interner).unwrap(), slot_a);
    assert_eq!(stack.resolve(b, pos(2, 5), &mut interner).unwrap(), slot_b);
    stack.exit_frame();
}

#[test]
fn duplicate_declaration_rejected() {
    let mut interner = Interner::new();
    let mut stack = Stack::new();
    let x = interner.get_or_intern(String::from("x"));

    stack.enter_frame();
    let first = stack.declare(x, pos(1, 1)).unwrap();
    let second = stack.declare(x, pos(3, 7));
    assert_eq!(
        second,
        Err(Error::DuplicateVariable { symbol: x, pos: pos(3, 7) })
    );
    // The first declaration's slot is untouched and still resolvable.
    assert_eq!(stack.resolve(x, pos(4, 1), &mut interner).unwrap(), first);
    let info = stack.exit_frame();
    assert_eq!(info.slots.len(), 1);
}

#[test]
fn shadowing_inner_then_outer() {
    let mut interner = Interner::new();
    let mut stack = Stack::new();
    let x = interner.get_or_intern(String::from("x"));

    stack.enter_frame();
    let outer = stack.declare(x, pos(1, 1)).unwrap();
    stack.enter_block();
    let inner = stack.declare(x, pos(2, 1)).unwrap();
    assert_ne!(outer, inner);
    assert_eq!(stack.resolve(x, pos(2, 5), &mut interner).unwrap(), inner);
    stack.exit_block();
    assert_eq!(stack.resolve(x, pos(3, 1), &mut interner).unwrap(), outer);
    stack.exit_frame();
}

#[test]
fn undeclared_symbol_is_an_error() {
    let mut interner = Interner::new();
    let mut stack = Stack::new();
    let ghost_name = interner.get_or_intern(String::from("nowhere"));

    stack.enter_frame();
    let outcome = stack.resolve(ghost_name, pos(9, 9), &mut interner);
    assert_eq!(
        outcome,
        Err(Error::UndeclaredVariable { symbol: ghost_name, pos: pos(9, 9) })
    );
    stack.exit_frame();
}

#[test]
fn sibling_block_does_not_see_declaration() {
    let mut interner = Interner::new();
    let mut stack = Stack::new();
    let y = interner.get_or_intern(String::from("y"));

    stack.enter_frame();
    stack.enter_block();
    stack.declare(y, pos(1, 1)).unwrap();
    stack.exit_block();
    stack.enter_block();
    let outcome = stack.resolve(y, pos(2, 1), &mut interner);
    assert_eq!(
        outcome,
        Err(Error::UndeclaredVariable { symbol: y, pos: pos(2, 1) })
    );
    stack.exit_block();
    stack.exit_frame();
}

#[test]
fn capture_from_parent_frame() {
    // Scenario B: F0 declares `x`; F1 resolves it.  F0's slot becomes
    // `Closed`, F1 gains one `Capture` slot forwarding to it, and the
    // returned index names F1's slot.
    let mut interner = Interner::new();
    let mut stack = Stack::new();
    let x = interner.get_or_intern(String::from("x"));

    stack.enter_frame();
    let origin = stack.declare(x, pos(1, 1)).unwrap();
    assert_eq!(origin, SlotIx(0));

    stack.enter_frame();
    let captured = stack.resolve(x, pos(2, 1), &mut interner).unwrap();
    assert_eq!(captured, SlotIx(0));

    let inner_info = stack.exit_frame();
    assert_eq!(inner_info.slots, vec![SlotKind::Capture { from: origin }]);

    let outer_info = stack.exit_frame();
    assert_eq!(outer_info.slots, vec![SlotKind::Closed]);
}

#[test]
fn capture_through_two_frames_twice() {
    // Scenario C: F0 declares `x`; F2 (inside F1) resolves it twice.  Both
    // calls return the same slot; F1 and F2 each gain exactly one capture
    // slot, chained through the immediately enclosing frame.
    let mut interner = Interner::new();
    let mut stack = Stack::new();
    let x = interner.get_or_intern(String::from("x"));

    stack.enter_frame();
    let origin = stack.declare(x, pos(1, 1)).unwrap();

    stack.enter_frame();
    stack.enter_frame();
    let first = stack.resolve(x, pos(3, 1), &mut interner).unwrap();
    let second = stack.resolve(x, pos(3, 9), &mut interner).unwrap();
    assert_eq!(first, second);

    let f2_info = stack.exit_frame();
    assert_eq!(f2_info.slots, vec![SlotKind::Capture { from: SlotIx(0) }]);

    let f1_info = stack.exit_frame();
    assert_eq!(f1_info.slots, vec![SlotKind::Capture { from: origin }]);

    let f0_info = stack.exit_frame();
    assert_eq!(f0_info.slots, vec![SlotKind::Closed]);
}

#[test]
fn capture_is_deduplicated_per_frame() {
    // Resolving the same outer symbol twice from the same inner frame adds
    // one capture slot in the intermediate frame, not two; a local declared
    // in between keeps its own slot.
    let mut interner = Interner::new();
    let mut stack = Stack::new();
    let x = interner.get_or_intern(String::from("x"));
    let local = interner.get_or_intern(String::from("local"));

    stack.enter_frame();
    stack.declare(x, pos(1, 1)).unwrap();

    stack.enter_frame();
    let first = stack.resolve(x, pos(2, 1), &mut interner).unwrap();
    stack.declare(local, pos(2, 5)).unwrap();
    let second = stack.resolve(x, pos(2, 9), &mut interner).unwrap();
    assert_eq!(first, second);

    let inner_info = stack.exit_frame();
    assert_eq!(
        inner_info.slots,
        vec![SlotKind::Capture { from: SlotIx(0) }, SlotKind::Regular]
    );
    stack.exit_frame();
}

#[test]
fn capture_after_declarations_uses_later_slot() {
    // The capture slot is allocated after existing locals of the inner
    // frame, and the origin may sit anywhere in the outer frame's layout.
    let mut interner = Interner::new();
    let mut stack = Stack::new();
    let a = interner.get_or_intern(String::from("a"));
    let b = interner.get_or_intern(String::from("b"));
    let c = interner.get_or_intern(String::from("c"));

    stack.enter_frame();
    stack.declare(a, pos(1, 1)).unwrap();
    let origin_b = stack.declare(b, pos(1, 5)).unwrap();
    assert_eq!(origin_b, SlotIx(1));

    stack.enter_frame();
    let local_c = stack.declare(c, pos(2, 1)).unwrap();
    assert_eq!(local_c, SlotIx(0));
    let captured = stack.resolve(b, pos(2, 5), &mut interner).unwrap();
    assert_eq!(captured, SlotIx(1));

    let inner_info = stack.exit_frame();
    assert_eq!(
        inner_info.slots,
        vec![SlotKind::Regular, SlotKind::Capture { from: origin_b }]
    );

    let outer_info = stack.exit_frame();
    assert_eq!(outer_info.slots, vec![SlotKind::Regular, SlotKind::Closed]);
}

#[test]
fn resolve_or_declare_reuses_the_root_slot() {
    let mut interner = Interner::new();
    let mut stack = Stack::new();
    let implicit = interner.get_or_intern(String::from("it"));

    stack.enter_frame();
    let first = stack.resolve_or_declare(implicit);
    let second = stack.resolve_or_declare(implicit);
    assert_eq!(first, second);

    // Even from a nested block the root-scope entry is found and reused.
    stack.enter_block();
    let third = stack.resolve_or_declare(implicit);
    assert_eq!(first, third);
    stack.exit_block();

    let info = stack.exit_frame();
    assert_eq!(info.slots, vec![SlotKind::Regular]);
}

#[test]
fn interner_round_trip_and_idempotence() {
    let mut interner = Interner::new();
    let one = interner.get_or_intern(String::from("name"));
    let two = interner.get_or_intern(String::from("name"));
    let other = interner.get_or_intern(String::from("other"));
    assert_eq!(one, two);
    assert_ne!(one, other);
    assert_eq!(interner.resolve(one).unwrap(), "name");
    assert_eq!(interner.resolve(other).unwrap(), "other");
}

#[test]
fn closed_origin_stays_closed() {
    // A second capture of the same variable by a later sibling function
    // leaves the origin closed and reuses nothing across frames that were
    // already popped.
    let mut interner = Interner::new();
    let mut stack = Stack::new();
    let x = interner.get_or_intern(String::from("x"));

    stack.enter_frame();
    stack.declare(x, pos(1, 1)).unwrap();

    stack.enter_frame();
    stack.resolve(x, pos(2, 1), &mut interner).unwrap();
    let first_inner = stack.exit_frame();
    assert_eq!(first_inner.slots, vec![SlotKind::Capture { from: SlotIx(0) }]);

    stack.enter_frame();
    stack.resolve(x, pos(3, 1), &mut interner).unwrap();
    let second_inner = stack.exit_frame();
    assert_eq!(second_inner.slots, vec![SlotKind::Capture { from: SlotIx(0) }]);

    let outer = stack.exit_frame();
    assert_eq!(outer.slots, vec![SlotKind::Closed]);
}

#[test]
fn default_stack_is_empty() {
    let mut stack = Stack::default();
    let mut interner = Interner::new();
    let x = interner.get_or_intern(String::from("x"));
    stack.enter_frame();
    let outcome = stack.resolve(x, pos(1, 1), &mut interner);
    assert_eq!(
        outcome,
        Err(Error::UndeclaredVariable { symbol: x, pos: pos(1, 1) })
    );
    stack.exit_frame();
}
