//! The two engines, run side by side on the same programs and inputs.

use bf::engine::{RTError, State, StopState};

/// One observable event of a run.
#[derive(Debug, Clone, Copy, PartialEq, Eq)]
enum Event {
    In,
    Out(u8),
}

/// Drive the reference engine to completion, feeding `input` byte by byte.
fn run_raw(program: &str, input: &[u8]) -> (Result<StopState, RTError>, Vec<Event>) {
    let p: bf::raw::Program = program.parse().unwrap();
    let mut engine = bf::engine::raw::Engine::new(p);
    let mut input = input;
    let mut events = Vec::new();
    loop {
        match engine.run() {
            Ok(State::Running) => continue,
            Ok(State::Stopped(StopState::Halted)) => return (Ok(StopState::Halted), events),
            Ok(State::Stopped(StopState::NeedInput)) => {
                let (b, rest) = input.split_first().expect("the test input ran dry");
                input = rest;
                engine.try_give_input(*b).unwrap();
                events.push(Event::In);
            }
            Ok(State::Stopped(StopState::HasOutput(b))) => events.push(Event::Out(b)),
            Err(e) => return (Err(e), events),
        }
    }
}

/// Drive the optimizing engine to completion, feeding `input` byte by byte.
fn run_ir(program: &str, input: &[u8]) -> (Result<StopState, RTError>, Vec<Event>) {
    let p: bf::raw::Program = program.parse().unwrap();
    let ir = bf::ir::Program::from_raw(p);
    let mut engine = bf::engine::ir::Engine::new(ir);
    let mut input = input;
    let mut events = Vec::new();
    loop {
        match engine.run() {
            Ok(State::Running) => continue,
            Ok(State::Stopped(StopState::Halted)) => return (Ok(StopState::Halted), events),
            Ok(State::Stopped(StopState::NeedInput)) => {
                let (b, rest) = input.split_first().expect("the test input ran dry");
                input = rest;
                engine.try_give_input(*b).unwrap();
                events.push(Event::In);
            }
            Ok(State::Stopped(StopState::HasOutput(b))) => events.push(Event::Out(b)),
            Err(e) => return (Err(e), events),
        }
    }
}

/// The outputs of an event list.
fn outputs(events: &[Event]) -> Vec<u8> {
    events
        .iter()
        .filter_map(|e| match e {
            Event::Out(b) => Some(*b),
            Event::In => None,
        })
        .collect()
}

/// The event list up to and including the last output.
fn fingerprint(events: &[Event]) -> Vec<Event> {
    let end = events
        .iter()
        .rposition(|e| matches!(e, Event::Out(_)))
        .map_or(0, |i| i + 1);
    events[..end].to_vec()
}

#[test]
fn trivial_echo() {
    let (r, ev) = run_raw(",.", &[0x41]);
    assert_eq!(r, Ok(StopState::Halted));
    assert_eq!(outputs(&ev), vec![0x41]);
    assert_eq!(ev, vec![Event::In, Event::Out(0x41)]);
    let (r2, ev2) = run_ir(",.", &[0x41]);
    assert_eq!(r2, Ok(StopState::Halted));
    assert_eq!(fingerprint(&ev), fingerprint(&ev2));
}

#[test]
fn counted_increment() {
    let program = "+++++[>+++++<-]>.";
    let (r, ev) = run_raw(program, &[]);
    assert_eq!(r, Ok(StopState::Halted));
    assert_eq!(outputs(&ev), vec![25]);
    let (r2, ev2) = run_ir(program, &[]);
    assert_eq!(r2, Ok(StopState::Halted));
    assert_eq!(outputs(&ev2), vec![25]);
}

#[test]
fn dead_leading_loop() {
    let program = "[>+<-]++.";
    let (r, ev) = run_raw(program, &[]);
    assert_eq!(r, Ok(StopState::Halted));
    assert_eq!(outputs(&ev), vec![0x02]);
    let (r2, ev2) = run_ir(program, &[]);
    assert_eq!(r2, Ok(StopState::Halted));
    assert_eq!(outputs(&ev2), vec![0x02]);
    // the optimizer removed the loop at the front of the top-level block
    let p: bf::raw::Program = program.parse().unwrap();
    let ir = bf::ir::Program::from_raw(p);
    assert!(!matches!(ir.0 .0.first(), Some(bf::ir::Node::Loop(_))));
}

#[test]
fn left_edge_underflow() {
    let (r, _) = run_raw("<.", &[]);
    assert_eq!(r, Err(RTError::MemNegativeOut));
    let (r2, _) = run_ir("<.", &[]);
    assert_eq!(r2, Err(RTError::MemNegativeOut));
}

#[test]
fn commuting_add_coalescing() {
    // adds two at the cell under the pointer and one at its right neighbour
    let program = "+>+<+.>.";
    let (r, ev) = run_raw(program, &[]);
    assert_eq!(r, Ok(StopState::Halted));
    let (r2, ev2) = run_ir(program, &[]);
    assert_eq!(r2, Ok(StopState::Halted));
    assert_eq!(outputs(&ev), vec![2, 1]);
    assert_eq!(outputs(&ev), outputs(&ev2));
    assert_eq!(fingerprint(&ev), fingerprint(&ev2));
}

#[test]
fn interleaved_fingerprint_matches() {
    // read two bytes, echo them reversed with arithmetic in between
    let program = ",>,<.>.";
    let (r, ev) = run_raw(program, &[3, 7]);
    let (r2, ev2) = run_ir(program, &[3, 7]);
    assert_eq!(r, Ok(StopState::Halted));
    assert_eq!(r2, Ok(StopState::Halted));
    assert_eq!(outputs(&ev), vec![3, 7]);
    assert_eq!(fingerprint(&ev), fingerprint(&ev2));
}

#[test]
fn wrapping_cells() {
    // decrementing a fresh cell wraps below zero
    let program = "-.";
    let (_, ev) = run_raw(program, &[]);
    assert_eq!(outputs(&ev), vec![255]);
    let (_, ev2) = run_ir(program, &[]);
    assert_eq!(outputs(&ev2), vec![255]);
}

#[test]
fn nested_loops_agree() {
    // 3 * 4 via a nested loop, printed once
    let program = "+++[>++++[>+<-]<-]>>.";
    let (r, ev) = run_raw(program, &[]);
    let (r2, ev2) = run_ir(program, &[]);
    assert_eq!(r, Ok(StopState::Halted));
    assert_eq!(r2, Ok(StopState::Halted));
    assert_eq!(outputs(&ev), vec![12]);
    assert_eq!(outputs(&ev), outputs(&ev2));
}

#[test]
fn input_slot_protocol() {
    let p: bf::raw::Program = ",".parse().unwrap();
    let mut engine = bf::engine::raw::Engine::new(p);
    assert!(!engine.has_input());
    assert_eq!(engine.input(), None);
    assert_eq!(engine.try_give_input(9), Ok(()));
    assert!(engine.has_input());
    assert_eq!(engine.input(), Some(9));
    assert_eq!(engine.try_give_input(4), Err(9));
    assert_eq!(engine.give_input(5), Some(9));
    assert_eq!(engine.input(), Some(5));
}

#[test]
fn ir_input_slot_protocol() {
    let p: bf::raw::Program = ",".parse().unwrap();
    let ir = bf::ir::Program::from_raw(p);
    let mut engine = bf::engine::ir::Engine::new(ir);
    assert!(!engine.has_input());
    assert_eq!(engine.try_give_input(7), Ok(()));
    assert_eq!(engine.try_give_input(8), Err(7));
    assert_eq!(engine.give_input(2), Some(7));
    assert_eq!(engine.input(), Some(2));
}

#[test]
fn step_reports_halt() {
    let p: bf::raw::Program = "".parse().unwrap();
    let mut engine = bf::engine::raw::Engine::new(p);
    assert_eq!(engine.step(), Ok(State::Stopped(StopState::Halted)));
}

#[test]
fn empty_guarded_loop_spins() {
    // a non-zero guard around an empty body never terminates: the engine
    // keeps reporting progress without stopping
    let p: bf::raw::Program = "+[]".parse().unwrap();
    let ir = bf::ir::Program::from_raw(p);
    let mut engine = bf::engine::ir::Engine::new(ir);
    for _ in 0..1000 {
        match engine.step() {
            Ok(State::Running) => continue,
            other => panic!("the loop should keep running, got {other:?}"),
        }
    }
}

#[test]
fn engines_build_from_text() {
    let mut e = bf::engine::raw::Engine::new_from_text("comment ++.").unwrap();
    let mut seen = Vec::new();
    loop {
        match e.run().unwrap() {
            State::Running => continue,
            State::Stopped(StopState::Halted) => break,
            State::Stopped(StopState::HasOutput(b)) => seen.push(b),
            State::Stopped(StopState::NeedInput) => panic!("no input expected"),
        }
    }
    assert_eq!(seen, vec![2]);
    assert!(bf::engine::raw::Engine::new_from_text("[").is_err());
    assert!(bf::engine::ir::Engine::new_from_text("]").is_err());
    let mut e2 = bf::engine::ir::Engine::new_from_text("++.").unwrap();
    let mut seen2 = Vec::new();
    loop {
        match e2.run().unwrap() {
            State::Running => continue,
            State::Stopped(StopState::Halted) => break,
            State::Stopped(StopState::HasOutput(b)) => seen2.push(b),
            State::Stopped(StopState::NeedInput) => panic!("no input expected"),
        }
    }
    assert_eq!(seen2, vec![2]);
}
