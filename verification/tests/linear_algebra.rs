//! The affine maps, their composition, and the sparse vectors.

use bf::affine_ir::{Instruction, Loop, Program};
use bf::linear::{Affine, AffineToScalar};
use bf::linearmath::Vector;

#[test]
fn double_set_comm() {
    let set1 = Affine::set(-1, 5);
    let set2 = Affine::set(-3, 42);
    assert_eq!(
        Affine::combine(set1.clone(), set2.clone()),
        Affine::combine(set2, set1)
    )
}

#[test]
fn double_set() {
    let set1 = Affine::set(-1, 5);
    let set2 = Affine::set(-1, 42);
    assert_eq!(Affine::combine(set1, set2.clone()), set2)
}

#[test]
fn double_add_comm() {
    let add1 = Affine::add(-1, 5);
    let add2 = Affine::add(-3, 42);
    assert_eq!(
        Affine::combine(add1.clone(), add2.clone()),
        Affine::combine(add2, add1)
    )
}

#[test]
fn double_add() {
    let add1 = Affine::add(-1, 5);
    let add2 = Affine::add(-1, 42);
    assert_eq!(Affine::combine(add1, add2), Affine::add(-1, 5 + 42))
}

#[test]
fn simple_loop() {
    let raw = "[]".parse::<bf::raw::Program>().unwrap();
    let ir = Program::try_from_raw(raw).expect("`[]` should be a valid program");
    assert_eq!(
        ir,
        Program(vec![Instruction::Loop(Loop {
            condition: AffineToScalar::extract(0),
            body: vec![]
        })])
    )
}

const INDICES: [isize; 7] = [-100, -50, -1, 0, 1, 50, 100];

#[test]
fn zero_is_all_zeros() {
    let vec = Vector::zero();
    for idx in INDICES {
        assert_eq!(vec.get(idx), None);
        assert_eq!(vec.get_u8(idx), 0);
    }
}

#[test]
fn single_entry() {
    for i in INDICES {
        let vec = Vector::single_entry(i, 1);
        for idx in INDICES {
            if idx != i {
                assert_eq!(vec.get(idx), None);
                assert_eq!(vec.get_u8(idx), 0);
            } else {
                assert_eq!(vec.get(idx), Some(1));
                assert_eq!(vec.get_u8(idx), 1);
            }
        }
    }
}

#[test]
fn sum_two_entries() {
    for i in INDICES {
        for j in INDICES {
            let vec = Vector::sum(&Vector::single_entry(i, 1), &Vector::single_entry(j, 1));
            for idx in INDICES {
                if idx != i && idx != j {
                    assert_eq!(vec.get(idx), None);
                    assert_eq!(vec.get_u8(idx), 0);
                } else if idx == i && idx == j {
                    assert_eq!(vec.get(idx), Some(2));
                    assert_eq!(vec.get_u8(idx), 2);
                } else {
                    assert_eq!(vec.get(idx), Some(1));
                    assert_eq!(vec.get_u8(idx), 1);
                }
            }
        }
    }
}

#[test]
fn sum_two_opposite_entries() {
    for i in INDICES {
        for j in INDICES {
            let vec = Vector::sum(&Vector::single_entry(i, 1), &Vector::single_entry(j, 255));
            for idx in INDICES {
                if (idx != i && idx != j) || (idx == i && idx == j) {
                    assert_eq!(vec.get(idx), None);
                    assert_eq!(vec.get_u8(idx), 0);
                } else if idx == i {
                    assert_eq!(vec.get(idx), Some(1));
                    assert_eq!(vec.get_u8(idx), 1);
                } else {
                    assert_eq!(vec.get(idx), Some(255));
                    assert_eq!(vec.get_u8(idx), 255);
                }
            }
        }
    }
}

#[test]
fn vector_scaling_and_dot() {
    let v = Vector::sum(&Vector::single_entry(0, 3), &Vector::single_entry(2, 5));
    let w = v.mul(2);
    assert_eq!(w.get_u8(0), 6);
    assert_eq!(w.get_u8(2), 10);
    assert!(v.mul(0).is_zero());
    let u = Vector::sum(&Vector::single_entry(0, 2), &Vector::single_entry(1, 7));
    // 3 * 2 at index zero is the only overlap
    assert_eq!(v.dot(&u), 6);
    assert!(!v.is_zero());
    assert!(Vector::zero().is_zero());
}

#[test]
fn set_overwrites_and_add_accumulates() {
    // setting twice keeps the later value; adding twice accumulates
    let twice_set = Affine::combine(Affine::set(0, 9), Affine::set(0, 4));
    assert_eq!(twice_set, Affine::set(0, 4));
    let twice_add = Affine::combine(Affine::add(0, 200), Affine::add(0, 100));
    // the sum wraps modulo 256
    assert_eq!(twice_add, Affine::add(0, 44));
}

#[test]
fn lowering_produces_affine_steps() {
    let raw = "+-,.".parse::<bf::raw::Program>().unwrap();
    let ir = Program::try_from_raw(raw).unwrap();
    // plus, minus, a clearing set with an input, and an output
    assert_eq!(ir.0.len(), 5);
    assert!(matches!(ir.0[0], Instruction::MemOp(_)));
    assert!(matches!(ir.0[1], Instruction::MemOp(_)));
    assert!(matches!(ir.0[2], Instruction::MemOp(_)));
    assert!(matches!(ir.0[3], Instruction::Input(_)));
    assert!(matches!(ir.0[4], Instruction::Output(_)));
}
