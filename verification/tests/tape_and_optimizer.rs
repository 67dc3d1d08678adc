//! The memory tape and the optimizer's observable behaviour.

use bf::engine::mem::Memory;
use bf::ir::{Add, Block, Node, Shift};

#[test]
fn fresh_tape_reads_zero() {
    let m = Memory::new();
    assert_eq!(m.get(0), 0);
    assert_eq!(m.get(123456), 0);
}

#[test]
fn set_then_get() {
    let mut m = Memory::new();
    m.set(5, 42);
    assert_eq!(m.get(5), 42);
    assert_eq!(m.get(4), 0);
    assert_eq!(m.get(6), 0);
}

#[test]
fn zero_past_end_is_free() {
    let mut m = Memory::new();
    m.set(1000, 0);
    assert_eq!(m.filled_len(), 0);
    assert_eq!(m.as_bytes(), Vec::<u8>::new());
}

#[test]
fn filled_len_ignores_trailing_zeros() {
    let mut m = Memory::new();
    m.set(0, 7);
    m.set(3, 9);
    m.set(3, 0);
    assert_eq!(m.filled_len(), 1);
    assert_eq!(m.as_bytes(), vec![7]);
}

#[test]
fn shrink_keeps_content() {
    let mut m = Memory::new();
    m.set(2, 8);
    m.set(9, 1);
    m.set(9, 0);
    m.shrink_to_fit();
    assert_eq!(m.get(2), 8);
    assert_eq!(m.get(9), 0);
}

#[test]
fn tape_equality_is_zero_extended() {
    let mut a = Memory::new();
    let mut b = Memory::new();
    a.set(0, 3);
    b.set(0, 3);
    b.set(7, 1);
    b.set(7, 0);
    // b's storage is longer, but the logical content agrees everywhere
    assert!(a == b);
    b.set(7, 1);
    assert!(a != b);
}

#[test]
fn optimize_reaches_a_fixed_point() {
    let p: bf::raw::Program = "+++>><<-[->+<]>.".parse().unwrap();
    let mut prog = bf::ir::Program::from_raw(p);
    // lowering already optimized the block, so another round changes nothing
    let changed = prog.0.optimize();
    assert!(!changed);
    let changed_again = prog.0.optimize();
    assert!(!changed_again);
}

#[test]
fn optimize_coalesces_adds() {
    let mut b = Block(vec![
        Node::Add(Add { amount: 1, offset: 0 }),
        Node::Add(Add { amount: 2, offset: 0 }),
        Node::Add(Add { amount: 3, offset: 0 }),
    ]);
    let changed = b.optimize();
    assert!(changed);
    assert_eq!(b.0.len(), 1);
    assert!(matches!(b.0[0], Node::Add(Add { amount: 6, offset: 0 })));
}

#[test]
fn optimize_cancels_shifts() {
    let mut b = Block(vec![
        Node::Shift(Shift { amount: 3 }),
        Node::Shift(Shift { amount: -3 }),
    ]);
    let changed = b.optimize();
    assert!(changed);
    assert_eq!(b.0.len(), 0);
}

#[test]
fn optimize_drops_noops() {
    let mut b = Block(vec![Node::Noop, Node::Output(bf::ir::Output { offset: 0 }), Node::Noop]);
    let changed = b.optimize();
    assert!(changed);
    assert_eq!(b.0.len(), 1);
}

#[test]
fn optimize_retards_shifts() {
    // a shift before an add migrates behind it, moving the add's offset
    let mut b = Block(vec![
        Node::Shift(Shift { amount: 2 }),
        Node::Add(Add { amount: 1, offset: 0 }),
    ]);
    let changed = b.optimize();
    assert!(changed);
    assert_eq!(b.0.len(), 2);
    assert!(matches!(b.0[0], Node::Add(Add { amount: 1, offset: 2 })));
    assert!(matches!(b.0[1], Node::Shift(Shift { amount: 2 })));
}

#[test]
fn shifted_moves_every_offset() {
    let n = Node::Loop(bf::ir::Loop {
        body: Block(vec![
            Node::Add(Add { amount: 1, offset: 1 }),
            Node::Output(bf::ir::Output { offset: -1 }),
        ]),
        offset: 0,
    });
    let m = n.shifted(5).unwrap();
    if let Node::Loop(l) = m {
        assert_eq!(l.offset, 5);
        assert!(matches!(l.body.0[0], Node::Add(Add { amount: 1, offset: 6 })));
        assert!(matches!(l.body.0[1], Node::Output(bf::ir::Output { offset: 4 })));
    } else {
        panic!("shifting keeps the node a loop");
    }
}

#[test]
fn shifted_rejects_overflowing_offsets() {
    let n = Node::Add(Add { amount: 1, offset: isize::MAX });
    assert!(n.shifted(1).is_none());
    assert!(n.shifted(-1).is_some());
}

#[test]
fn shifting_by_zero_is_identity() {
    let n = Node::Input(bf::ir::Input { offset: 9 });
    let m = n.shifted(0).unwrap();
    assert!(matches!(m, Node::Input(bf::ir::Input { offset: 9 })));
}

#[test]
fn node_queries() {
    let out = Node::Output(bf::ir::Output { offset: 0 });
    assert!(out.does_output());
    assert!(!out.does_input());
    assert_eq!(out.diverge(), Some(false));
    let lp = Node::Loop(bf::ir::Loop { body: Block(vec![out]), offset: 0 });
    assert!(lp.does_output());
    assert_eq!(lp.diverge(), None);
    assert!(lp.as_block().is_some());
    let sh = Node::Shift(Shift { amount: 1 });
    assert!(sh.as_block().is_none());
    assert!(!sh.commute(&lp));
    let a = Node::Add(Add { amount: 1, offset: 0 });
    let b = Node::Add(Add { amount: 1, offset: 1 });
    assert!(a.commute(&b));
    assert!(!a.commute(&Node::Add(Add { amount: 2, offset: 0 })));
}

#[test]
fn tape_ordering_is_zero_extended() {
    let mut a = Memory::new();
    let mut b = Memory::new();
    a.set(0, 1);
    b.set(0, 1);
    b.set(5, 2);
    // a reads zero at index five, so it comes first
    assert_eq!(a.partial_cmp(&b), Some(std::cmp::Ordering::Less));
    assert!(a < b);
    a.set(5, 2);
    a.set(9, 0);
    assert_eq!(a.partial_cmp(&b), Some(std::cmp::Ordering::Equal));
    a.set(1, 200);
    assert_eq!(a.partial_cmp(&b), Some(std::cmp::Ordering::Greater));
}

#[test]
fn optimize_cancels_opposed_adds() {
    let mut b = Block(vec![
        Node::Add(Add { amount: 128, offset: 0 }),
        Node::Add(Add { amount: 128, offset: 0 }),
    ]);
    let changed = b.optimize();
    assert!(changed);
    assert_eq!(b.0.len(), 0);
}

#[test]
fn trim_can_empty_the_whole_block() {
    // every node is removable: adds coalesce and the silent tail is trimmed
    let p: bf::raw::Program = "++".parse().unwrap();
    let prog = bf::ir::Program::from_raw(p);
    assert_eq!(prog.0 .0.len(), 0);
}

#[test]
fn empty_loop_program_halts() {
    let p: bf::raw::Program = "[]".parse().unwrap();
    let mut engine = bf::engine::raw::Engine::new(p);
    assert!(matches!(
        engine.run(),
        Ok(bf::engine::State::Stopped(bf::engine::StopState::Halted))
    ));
    let p2: bf::raw::Program = "[]".parse().unwrap();
    let ir = bf::ir::Program::from_raw(p2);
    let mut engine2 = bf::engine::ir::Engine::new(ir);
    assert!(matches!(
        engine2.run(),
        Ok(bf::engine::State::Stopped(bf::engine::StopState::Halted))
    ));
}
