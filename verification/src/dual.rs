//! The `Dual` number: a value paired with its entry on an adjoint tape.

use crate::tape::{
    push_binary, push_leaf, push_unary, run_backward, adjoint_of, recognizes_zero, seed, Tape,
    ring_arithmetic, chain_sum,
};
use vstd::prelude::*;

verus! {

/// A quantity whose sensitivity is tracked.
///
/// `Dual` is a small `Copy` handle: it owns no derivative data, which all
/// lives on the tape, so passing one through a pricing routine costs no
/// more than passing its value and an index.
#[derive(Clone, Copy, Debug)]
pub struct Dual<T> {
    pub value: T,
    pub index: u32,
}

/// A handle onto the adjoints that the most recent backward sweep left on
/// the tape. It reads the tape's live adjoints, so a later sweep or a reset
/// makes what it reads change.
pub struct Gradient(());

impl<T> Dual<T> {
    /// The index of this value's entry on its tape, as an integer.
    pub open spec fn position(self) -> int {
        self.index as int
    }
}

impl<T: Copy> Dual<T> {
    /// Register an independent variable (a market input such as Spot,
    /// Volatility or the Rate) whose sensitivity is wanted back.
    pub fn var(tape: &mut Tape<T>, value: T, zero: T) -> (d: Dual<T>)
        requires
            old(tape).wf(),
            old(tape).size() <= u32::MAX,
        ensures
            final(tape).wf(),
            d.value == value,
            d.position() == old(tape).size(),
            final(tape).links() == old(tape).links().push((d.index, d.index)),
            final(tape).partial_pairs() == old(tape).partial_pairs().push([zero, zero]),
            final(tape).adjoints() == old(tape).adjoints(),
            old(tape).self_links_inert(zero) ==> final(tape).self_links_inert(zero),
    {
        Dual { value, index: push_leaf(tape, zero) }
    }

    /// Record a one-input operation whose result is `value`; `partial` is
    /// d(result)/d(input) at the input's current value.
    pub fn unary(tape: &mut Tape<T>, value: T, input: Dual<T>, partial: T, zero: T) -> (d: Dual<T>)
        requires
            old(tape).wf(),
            old(tape).size() <= u32::MAX,
            input.position() < old(tape).size(),
        ensures
            final(tape).wf(),
            d.value == value,
            d.position() == old(tape).size(),
            final(tape).links() == old(tape).links().push((input.index, input.index)),
            final(tape).partial_pairs() == old(tape).partial_pairs().push([partial, zero]),
            final(tape).adjoints() == old(tape).adjoints(),
            forall|z: T|
                old(tape).self_links_inert(z) ==> #[trigger] final(tape).self_links_inert(z),
    {
        Dual { value, index: push_unary(tape, input.index, partial, zero) }
    }

    /// Record a two-input operation whose result is `value`; `d_left` and
    /// `d_right` are the partials with respect to each input at their
    /// current values.
    pub fn binary(
        tape: &mut Tape<T>,
        value: T,
        left: Dual<T>,
        d_left: T,
        right: Dual<T>,
        d_right: T,
    ) -> (d: Dual<T>)
        requires
            old(tape).wf(),
            old(tape).size() <= u32::MAX,
            left.position() < old(tape).size(),
            right.position() < old(tape).size(),
        ensures
            final(tape).wf(),
            d.value == value,
            d.position() == old(tape).size(),
            final(tape).links() == old(tape).links().push((left.index, right.index)),
            final(tape).partial_pairs() == old(tape).partial_pairs().push([d_left, d_right]),
            final(tape).adjoints() == old(tape).adjoints(),
            forall|z: T|
                old(tape).self_links_inert(z) ==> #[trigger] final(tape).self_links_inert(z),
    {
        Dual { value, index: push_binary(tape, left.index, d_left, right.index, d_right) }
    }

    /// Walk this value's adjoint back through every operation that produced
    /// it, which gives the sensitivity to every input at once. The scalar
    /// arithmetic is `is_zero` and `accumulate`, as in `tape::run_backward`.
    pub fn backward<Z: Fn(T) -> bool, A: Fn(T, T, T) -> T>(
        &self,
        tape: &mut Tape<T>,
        zero: T,
        one: T,
        is_zero: Z,
        accumulate: A,
    ) -> (grad: Gradient)
        requires
            old(tape).wf(),
            self.position() < old(tape).size(),
            forall|x: T| call_requires(is_zero, (x,)),
            forall|x: T, y: T, z: T| call_requires(accumulate, (x, y, z)),
        ensures
            final(tape).wf(),
            final(tape).links() == old(tape).links(),
            final(tape).partial_pairs() == old(tape).partial_pairs(),
            final(tape).adjoints().len() == self.position() + 1,
            old(tape).sweeps(
                is_zero,
                accumulate,
                self.position(),
                seed((self.position() + 1) as nat, self.position(), zero, one),
                final(tape).adjoints(),
            ),
            recognizes_zero(is_zero, zero) ==> forall|j: int|
                0 <= j <= self.position() && !old(tape).feeds(j, self.position())
                    ==> final(tape).adjoints()[j] == zero,
            forall|plus: spec_fn(T, T) -> T, times: spec_fn(T, T) -> T|
                #[trigger] ring_arithmetic(is_zero, accumulate, zero, plus, times)
                    && old(tape).self_links_inert(zero) ==> {
                    &&& final(tape).adjoints()[self.position()] == one
                    &&& forall|i: int|
                        0 <= i < self.position() ==> #[trigger] final(tape).adjoints()[i]
                            == chain_sum(
                            *old(tape),
                            final(tape).adjoints(),
                            plus,
                            times,
                            zero,
                            i,
                            i + 1,
                            self.position(),
                        )
                },
    {
        run_backward(tape, self.index, zero, one, is_zero, accumulate);
        Gradient(())
    }
}

impl Gradient {
    /// How sensitive the swept output is to `input`: its adjoint from the
    /// last sweep, or `zero` when the sweep did not reach it.
    pub fn wrt<T: Copy>(&self, tape: &Tape<T>, input: Dual<T>, zero: T) -> (sensitivity: T)
        ensures
            sensitivity == tape.adjoint_at(input.position(), zero),
            input.position() < tape.adjoints().len() ==> sensitivity == tape.adjoints()[input.position()],
            input.position() >= tape.adjoints().len() ==> sensitivity == zero,
    {
        adjoint_of(tape, input.index, zero)
    }
}

} // verus!
