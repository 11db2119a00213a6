//! The tape's indexing, its sweep's bookkeeping and the laws that the proofs
//! state, on concrete values.

use std::cell::Cell;

use adjoint_core::tape::{self, adjoint_of, push_binary, push_leaf, push_unary, run_backward, Node, Tape};
use adjoint_core::Dual;

fn is_zero(a: f64) -> bool {
    a == 0.0
}

fn accumulate(acc: f64, adjoint: f64, partial: f64) -> f64 {
    acc + adjoint * partial
}

#[test]
fn pushes_return_consecutive_indices() {
    let mut t: Tape<f64> = Tape::new();
    assert_eq!(tape::len(&t), 0);
    assert_eq!(push_leaf(&mut t, 0.0), 0);
    assert_eq!(push_leaf(&mut t, 0.0), 1);
    assert_eq!(push_unary(&mut t, 1, 2.5, 0.0), 2);
    assert_eq!(push_binary(&mut t, 0, 1.0, 2, -1.0), 3);
    assert_eq!(t.push(Node { parents: [3, 3], partials: [4.0, 0.0] }), 4);
    assert_eq!(tape::len(&t), 5);
}

#[test]
fn integer_scalars_sweep_exactly() {
    // z = x * y with x = 7, y = 3: dz/dx = 3, dz/dy = 7.
    let mut t: Tape<u64> = Tape::new();
    let x = Dual::var(&mut t, 7u64, 0);
    let y = Dual::var(&mut t, 3u64, 0);
    let z = Dual::binary(&mut t, 21, x, 3, y, 7);
    let grad = z.backward(&mut t, 0, 1, |a: u64| a == 0, |c: u64, a: u64, p: u64| c + a * p);
    assert_eq!(grad.wrt(&t, x, 0), 3);
    assert_eq!(grad.wrt(&t, y, 0), 7);
    assert_eq!(grad.wrt(&t, z, 0), 1);
}

#[test]
fn sweep_seeds_output_with_one() {
    let mut t: Tape<f64> = Tape::new();
    let x = push_leaf(&mut t, 0.0);
    run_backward(&mut t, x, 0.0, 1.0, is_zero, accumulate);
    assert_eq!(adjoint_of(&t, x, 0.0), 1.0);
}

#[test]
fn entries_after_the_output_have_zero_sensitivity() {
    let mut t: Tape<f64> = Tape::new();
    let x = push_leaf(&mut t, 0.0);
    let y = push_unary(&mut t, x, 3.0, 0.0);
    let later = push_unary(&mut t, y, 5.0, 0.0);
    run_backward(&mut t, y, 0.0, 1.0, is_zero, accumulate);
    assert_eq!(adjoint_of(&t, x, 0.0), 3.0);
    assert_eq!(adjoint_of(&t, y, 0.0), 1.0);
    assert_eq!(adjoint_of(&t, later, 0.0), 0.0);
    assert_eq!(adjoint_of(&t, 1000, -1.0), -1.0);
}

#[test]
fn sweep_ignores_entries_recorded_after_output() {
    let mut short: Tape<f64> = Tape::new();
    let a = push_leaf(&mut short, 0.0);
    let b = push_leaf(&mut short, 0.0);
    let c = push_binary(&mut short, a, 2.0, b, 3.0);

    let mut long: Tape<f64> = Tape::new();
    push_leaf(&mut long, 0.0);
    push_leaf(&mut long, 0.0);
    push_binary(&mut long, a, 2.0, b, 3.0);
    push_binary(&mut long, c, 10.0, a, 20.0);
    push_unary(&mut long, 3, 7.0, 0.0);

    run_backward(&mut short, c, 0.0, 1.0, is_zero, accumulate);
    run_backward(&mut long, c, 0.0, 1.0, is_zero, accumulate);
    for i in 0..3 {
        assert_eq!(adjoint_of(&short, i, 0.0), adjoint_of(&long, i, 0.0));
    }
    assert_eq!(adjoint_of(&long, a, 0.0), 2.0);
    assert_eq!(adjoint_of(&long, b, 0.0), 3.0);
}

#[test]
fn leaf_visit_leaves_adjoints_unchanged() {
    // A lone leaf swept from itself: its self-links add zero times one.
    let mut t: Tape<f64> = Tape::new();
    let x = push_leaf(&mut t, 0.0);
    let y = push_leaf(&mut t, 0.0);
    run_backward(&mut t, y, 0.0, 1.0, |_a: f64| false, accumulate);
    assert_eq!(adjoint_of(&t, y, 0.0), 1.0);
    assert_eq!(adjoint_of(&t, x, 0.0), 0.0);
}

#[test]
fn zero_adjoints_are_passed_over() {
    // x, unused, z = 4 * x: the sweep accumulates for z (two slots) and for
    // x (two slots of its self-links), and passes over `unused`.
    let mut t: Tape<f64> = Tape::new();
    let x = push_leaf(&mut t, 0.0);
    let _unused = push_leaf(&mut t, 0.0);
    let z = push_unary(&mut t, x, 4.0, 0.0);
    let calls = Cell::new(0usize);
    let counting = |acc: f64, adjoint: f64, partial: f64| {
        calls.set(calls.get() + 1);
        acc + adjoint * partial
    };
    run_backward(&mut t, z, 0.0, 1.0, is_zero, counting);
    assert_eq!(calls.get(), 4);
    assert_eq!(adjoint_of(&t, x, 0.0), 4.0);
}

#[test]
fn repeated_parent_of_unary_accumulates_both_slots() {
    // The second slot repeats the parent with a zero partial, which the
    // accumulation still visits: with a partial-ignoring accumulate the
    // parent gets the adjoint twice.
    let mut t: Tape<f64> = Tape::new();
    let x = push_leaf(&mut t, 0.0);
    let z = push_unary(&mut t, x, 4.0, 0.0);
    run_backward(&mut t, z, 0.0, 1.0, is_zero, |acc: f64, adjoint: f64, _p: f64| acc + adjoint);
    // z: x += 1 twice -> 2; x: x += 2 twice -> 6.
    assert_eq!(adjoint_of(&t, x, 0.0), 6.0);
}

#[test]
fn reset_empties_tape_and_adjoints() {
    let mut t: Tape<f64> = Tape::new();
    let x = push_leaf(&mut t, 0.0);
    run_backward(&mut t, x, 0.0, 1.0, is_zero, accumulate);
    tape::reset(&mut t);
    assert_eq!(tape::len(&t), 0);
    assert_eq!(adjoint_of(&t, x, 0.0), 0.0);
    assert_eq!(push_leaf(&mut t, 0.0), 0);
}

#[test]
fn gradient_reads_the_live_adjoints() {
    let mut t: Tape<f64> = Tape::new();
    let x = Dual::var(&mut t, 2.0, 0.0);
    let z = Dual::unary(&mut t, 6.0, x, 3.0, 0.0);
    let grad = z.backward(&mut t, 0.0, 1.0, is_zero, accumulate);
    assert_eq!(grad.wrt(&t, x, 0.0), 3.0);
    let _ = x.backward(&mut t, 0.0, 1.0, is_zero, accumulate);
    assert_eq!(grad.wrt(&t, x, 0.0), 1.0);
    assert_eq!(grad.wrt(&t, z, 0.0), 0.0);
}

#[test]
fn sweeping_again_changes_nothing() {
    let mut t: Tape<f64> = Tape::new();
    let x = push_leaf(&mut t, 0.0);
    let y = push_leaf(&mut t, 0.0);
    let z = push_binary(&mut t, x, 3.0, y, 7.0);
    let w = push_unary(&mut t, z, 2.0, 0.0);
    run_backward(&mut t, w, 0.0, 1.0, is_zero, accumulate);
    let once: Vec<f64> = (0..4).map(|i| adjoint_of(&t, i, 0.0)).collect();
    run_backward(&mut t, w, 0.0, 1.0, is_zero, accumulate);
    let twice: Vec<f64> = (0..4).map(|i| adjoint_of(&t, i, 0.0)).collect();
    assert_eq!(once, twice);
    assert_eq!(once, vec![6.0, 14.0, 2.0, 1.0]);
}

#[test]
fn earlier_adjoints_do_not_enter_a_sweep() {
    // A sweep from another output first leaves other adjoints behind; the
    // sweep from `z` afterwards ends as it would on a fresh tape.
    let mut t: Tape<f64> = Tape::new();
    let x = push_leaf(&mut t, 0.0);
    let z = push_unary(&mut t, x, 5.0, 0.0);
    let later = push_unary(&mut t, z, 9.0, 0.0);
    run_backward(&mut t, later, 0.0, 1.0, is_zero, accumulate);
    assert_eq!(adjoint_of(&t, x, 0.0), 45.0);
    run_backward(&mut t, z, 0.0, 1.0, is_zero, accumulate);
    assert_eq!(adjoint_of(&t, x, 0.0), 5.0);
    assert_eq!(adjoint_of(&t, z, 0.0), 1.0);
    assert_eq!(adjoint_of(&t, later, 0.0), 0.0);
}

#[test]
fn len_counts_recordings_since_reset() {
    let mut t: Tape<f64> = Tape::new();
    for k in 0..5u32 {
        assert_eq!(tape::len(&t), k as usize);
        push_leaf(&mut t, 0.0);
    }
    tape::reset(&mut t);
    let x = Dual::var(&mut t, 1.0, 0.0);
    let y = Dual::unary(&mut t, 2.0, x, 2.0, 0.0);
    let _ = Dual::binary(&mut t, 3.0, x, 1.0, y, 1.0);
    assert_eq!(tape::len(&t), 3);
    assert_eq!(x.index, 0);
    assert_eq!(y.index, 1);
}
