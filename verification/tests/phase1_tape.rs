//! The tape records operations and the backward sweep gets back the
//! sensitivities that the calculus gives by hand.

use adjoint_core::tape::Tape;
use adjoint_core::{tape, Dual, Gradient};

const TOL: f64 = 1e-12;

fn is_zero(a: f64) -> bool {
    a == 0.0
}

fn accumulate(acc: f64, adjoint: f64, partial: f64) -> f64 {
    acc + adjoint * partial
}

fn backward(z: &Dual<f64>, t: &mut Tape<f64>) -> Gradient {
    z.backward(t, 0.0, 1.0, is_zero, accumulate)
}

/// z = x * y + exp(x), differentiated in one reverse sweep: dz/dx = y + exp(x)
/// and dz/dy = x.
#[test]
fn records_product_plus_exponential() {
    let mut t: Tape<f64> = Tape::new();
    tape::reset(&mut t);

    let x = Dual::var(&mut t, 2.0, 0.0);
    let y = Dual::var(&mut t, 3.0, 0.0);

    let xy = Dual::binary(&mut t, x.value * y.value, x, y.value, y, x.value);

    let exp_x = x.value.exp();
    let e = Dual::unary(&mut t, exp_x, x, exp_x, 0.0);

    let z = Dual::binary(&mut t, xy.value + e.value, xy, 1.0, e, 1.0);

    let grad = backward(&z, &mut t);

    assert!(
        (z.value - (6.0 + 2f64.exp())).abs() < TOL,
        "value: {}",
        z.value
    );
    assert!(
        (grad.wrt(&t, x, 0.0) - (3.0 + 2f64.exp())).abs() < TOL,
        "dz/dx: {}",
        grad.wrt(&t, x, 0.0)
    );
    assert!(
        (grad.wrt(&t, y, 0.0) - 2.0).abs() < TOL,
        "dz/dy: {}",
        grad.wrt(&t, y, 0.0)
    );
}

/// If a node feeds the output twice, both contributions are summed: z = x * x
/// gives dz/dx = 2x.
#[test]
fn accumulates_adjoint_for_repeated_input() {
    let mut t: Tape<f64> = Tape::new();
    tape::reset(&mut t);

    let x = Dual::var(&mut t, 7.0, 0.0);
    let z = Dual::binary(&mut t, x.value * x.value, x, x.value, x, x.value);

    let grad = backward(&z, &mut t);

    assert!(
        (grad.wrt(&t, x, 0.0) - 14.0).abs() < TOL,
        "dz/dx: {}",
        grad.wrt(&t, x, 0.0)
    );
}

/// An input that does not feed the output carries zero sensitivity, though it
/// sits on the same tape.
#[test]
fn unrelated_input_has_zero_sensitivity() {
    let mut t: Tape<f64> = Tape::new();
    tape::reset(&mut t);

    let x = Dual::var(&mut t, 2.0, 0.0);
    let unused = Dual::var(&mut t, 5.0, 0.0);
    let z = Dual::unary(&mut t, x.value * x.value, x, 2.0 * x.value, 0.0);

    let grad = backward(&z, &mut t);

    assert!((grad.wrt(&t, x, 0.0) - 4.0).abs() < TOL);
    assert!(grad.wrt(&t, unused, 0.0).abs() < TOL);
}

#[test]
fn reset_clears_the_tape_for_the_next_path() {
    let mut t: Tape<f64> = Tape::new();
    tape::reset(&mut t);

    let x = Dual::var(&mut t, 1.0, 0.0);
    let _ = Dual::unary(&mut t, x.value.exp(), x, x.value.exp(), 0.0);
    assert_eq!(tape::len(&t), 2);

    tape::reset(&mut t);
    assert_eq!(tape::len(&t), 0);

    let fresh = Dual::var(&mut t, 1.0, 0.0);
    assert_eq!(tape::len(&t), 1);
    assert!((backward(&fresh, &mut t).wrt(&t, fresh, 0.0) - 1.0).abs() < TOL);
}
