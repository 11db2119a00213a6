//! Arena-backed adjoint tape for reverse-mode sensitivity calculation.
//!
//! The tape is a flat log that grows as a value is computed forward. Every
//! entry records the local partial derivatives of one operation with respect
//! to its inputs; the backward sweep walks the log in reverse and applies the
//! chain rule to build up the adjoints.
//!
//! The parent links of the entries live in a `bumpalo` arena vector, so that
//! recording a path after the first one allocates nothing; the partials sit in
//! a vector beside it, entry for entry.

use bumpalo::Bump;
use bumpalo::collections::Vec as BumpVec;
use vstd::prelude::*;

verus! {

// ---------------------------------------------------------------------------
// The outside crate: `bumpalo`'s arena and its arena-backed vector.
// ---------------------------------------------------------------------------

/// `bumpalo::Bump`, the bump-allocation arena.
#[verifier::external_type_specification]
#[verifier::external_body]
pub struct ExBump<const MIN_ALIGN: usize>(Bump<MIN_ALIGN>);

/// `bumpalo::collections::Vec`, a vector whose buffer lives in a `Bump`.
#[verifier::external_type_specification]
#[verifier::external_body]
#[verifier::reject_recursive_types(T)]
pub struct ExBumpVec<'bump, T>(BumpVec<'bump, T>);

/// The parent links held by an arena vector of links, in order.
pub uninterp spec fn arena_links(v: BumpVec<'static, (u32, u32)>) -> Seq<(u32, u32)>;

/// Calls `bumpalo::Bump::with_capacity`, which returns a fresh arena with room
/// for at least `bytes` bytes (it aborts when the allocation fails). Nothing is
/// claimed of the arena: the tape only hands it to `BumpVec::new_in`.
#[verifier::external_body]
fn arena_with_capacity(bytes: usize) -> (arena: Bump) {
    Bump::with_capacity(bytes)
}

/// Calls `std::boxed::Box::leak`, which gives up ownership of the box and
/// returns a reference that lives for the rest of the program.
#[verifier::external_body]
fn leak_arena(arena: Box<Bump>) -> (leaked: &'static Bump)
    ensures
        *leaked == *arena,
{
    Box::leak(arena)
}

/// Calls `bumpalo::collections::Vec::new_in`, which returns an empty vector
/// allocating in `arena`.
#[verifier::external_body]
fn links_new_in(arena: &'static Bump) -> (links: BumpVec<'static, (u32, u32)>)
    ensures
        arena_links(links) == Seq::<(u32, u32)>::empty(),
{
    BumpVec::new_in(arena)
}

/// Calls `bumpalo::collections::Vec::push`, which appends `link` at the end.
/// It panics or aborts when the arena cannot grow the buffer (memory runs
/// out, or the capacity overflows); that machine limit is not stated here.
#[verifier::external_body]
fn links_push(links: &mut BumpVec<'static, (u32, u32)>, link: (u32, u32))
    ensures
        arena_links(*final(links)) == arena_links(*old(links)).push(link),
{
    links.push(link)
}

/// Calls `bumpalo::collections::Vec::len`, the number of elements held.
#[verifier::external_body]
fn links_len(links: &BumpVec<'static, (u32, u32)>) -> (n: usize)
    ensures
        n == arena_links(*links).len(),
{
    links.len()
}

/// Calls `bumpalo::collections::Vec::clear`, which drops every element and
/// keeps the buffer.
#[verifier::external_body]
fn links_clear(links: &mut BumpVec<'static, (u32, u32)>)
    ensures
        arena_links(*final(links)) == Seq::<(u32, u32)>::empty(),
{
    links.clear()
}

/// Indexes a `bumpalo::collections::Vec` (through its `Index` impl), which
/// returns the element at position `i`.
#[verifier::external_body]
fn links_get(links: &BumpVec<'static, (u32, u32)>, i: usize) -> (link: (u32, u32))
    requires
        i < arena_links(*links).len(),
    ensures
        link == arena_links(*links)[i as int],
{
    links[i]
}

// ---------------------------------------------------------------------------
// The tape.
// ---------------------------------------------------------------------------

/// How much the arena reserves up front, in bytes: enough that a typical
/// single-path tape never grows past its first chunk.
const ARENA_BYTES: usize = 64 * 1024;

/// A single recorded operation.
///
/// A leaf (an independent variable) points both parent slots back at itself,
/// with zero partials: propagating into itself then adds nothing, so the
/// sweep needs no special case for leaves.
#[derive(Clone, Copy, Debug)]
pub struct Node<T> {
    pub parents: [u32; 2],
    pub partials: [T; 2],
}

/// The log of recorded operations and the adjoints of the last sweep.
///
/// Entry `i` of the tape is the pair of its parent links (in the arena
/// vector) and its pair of partials (in the vector beside it).
pub struct Tape<T> {
    links: BumpVec<'static, (u32, u32)>,
    partials: Vec<[T; 2]>,
    adjoints: Vec<T>,
}

/// The adjoints a sweep starts from: `one` at `output`, `zero` everywhere
/// else, over `len` entries.
pub open spec fn seed<T>(len: nat, output: int, zero: T, one: T) -> Seq<T> {
    Seq::new(len, |k: int| if k == output { one } else { zero })
}

/// `after` is `before` with entry `slot` replaced by a result of
/// `accumulate(before[slot], adjoint, partial)`, and nothing else changed.
pub open spec fn accumulated<T, A: Fn(T, T, T) -> T>(
    accumulate: A,
    before: Seq<T>,
    slot: int,
    adjoint: T,
    partial: T,
    after: Seq<T>,
) -> bool {
    &&& 0 <= slot < before.len()
    &&& after.len() == before.len()
    &&& after == before.update(slot, after[slot])
    &&& call_ensures(accumulate, (before[slot], adjoint, partial), after[slot])
}

/// Both closures are functions: the same arguments never give two results.
pub open spec fn functional<T, Z: Fn(T) -> bool, A: Fn(T, T, T) -> T>(
    is_zero: Z,
    accumulate: A,
) -> bool {
    &&& forall|x: T, r1: bool, r2: bool|
        call_ensures(is_zero, (x,), r1) && call_ensures(is_zero, (x,), r2) ==> r1 == r2
    &&& forall|x: T, y: T, z: T, r1: T, r2: T|
        call_ensures(accumulate, (x, y, z), r1) && call_ensures(accumulate, (x, y, z), r2)
            ==> r1 == r2
}

/// `is_zero` answers `true` on `zero`, whatever else it does.
pub open spec fn recognizes_zero<T, Z: Fn(T) -> bool>(is_zero: Z, zero: T) -> bool {
    forall|r: bool| call_ensures(is_zero, (zero,), r) ==> r
}

impl<T> Tape<T> {
    /// The parent links of the recorded entries, in recording order.
    pub closed spec fn links(self) -> Seq<(u32, u32)> {
        arena_links(self.links)
    }

    /// The partials of the recorded entries, in recording order.
    pub closed spec fn partial_pairs(self) -> Seq<[T; 2]> {
        self.partials@
    }

    /// The adjoints that the last sweep left behind.
    pub closed spec fn adjoints(self) -> Seq<T> {
        self.adjoints@
    }

    /// Number of recorded entries.
    pub open spec fn size(self) -> nat {
        self.links().len()
    }

    /// Parent slot `k` (0 or 1) of entry `i`.
    pub open spec fn parent(self, i: int, k: int) -> int {
        if k == 0 {
            self.links()[i].0 as int
        } else {
            self.links()[i].1 as int
        }
    }

    /// Partial `k` (0 or 1) of entry `i`: d(entry i) / d(parent k).
    pub open spec fn partial(self, i: int, k: int) -> T {
        self.partial_pairs()[i]@[k]
    }

    /// Entry `i` as a `Node`.
    pub open spec fn node(self, i: int) -> Node<T> {
        Node { parents: [self.links()[i].0, self.links()[i].1], partials: self.partial_pairs()[i] }
    }

    /// Well-formed: one pair of partials per entry, every index fits a
    /// `u32`, and every entry's parents were recorded no later than itself.
    pub open spec fn wf(self) -> bool {
        &&& self.links().len() == self.partial_pairs().len()
        &&& self.links().len() <= u32::MAX as nat + 1
        &&& self.links().len() <= usize::MAX
        &&& forall|i: int|
            #![trigger self.links()[i]]
            0 <= i < self.links().len() ==> self.links()[i].0 <= i && self.links()[i].1 <= i
    }

    /// Entry `j` feeds entry `i`: `j` is `i`, or feeds one of `i`'s parents
    /// other than `i` itself.
    pub open spec fn feeds(self, j: int, i: int) -> bool
        decreases i,
    {
        if 0 <= i < self.links().len() {
            ||| j == i
            ||| (0 <= self.parent(i, 0) < i && self.feeds(j, self.parent(i, 0)))
            ||| (0 <= self.parent(i, 1) < i && self.feeds(j, self.parent(i, 1)))
        } else {
            false
        }
    }

    /// The sweep's visit of entry `i` turns the adjoints `before` into
    /// `after`: when `is_zero` answers `true` on entry `i`'s adjoint nothing
    /// changes; otherwise that adjoint times each partial is accumulated into
    /// parent 0, then into parent 1.
    pub open spec fn visit<Z: Fn(T) -> bool, A: Fn(T, T, T) -> T>(
        self,
        is_zero: Z,
        accumulate: A,
        i: int,
        before: Seq<T>,
        after: Seq<T>,
    ) -> bool {
        let adjoint = before[i];
        ||| call_ensures(is_zero, (adjoint,), true) && after == before
        ||| call_ensures(is_zero, (adjoint,), false) && exists|mid: Seq<T>|
            #[trigger] accumulated(
                accumulate,
                before,
                self.parent(i, 0),
                adjoint,
                self.partial(i, 0),
                mid,
            ) && accumulated(accumulate, mid, self.parent(i, 1), adjoint, self.partial(i, 1), after)
    }

    /// Step `k` of a sweep from `output`: the visit of entry `output - k`,
    /// from `trace[k]` to `trace[k + 1]`.
    pub open spec fn sweep_step<Z: Fn(T) -> bool, A: Fn(T, T, T) -> T>(
        self,
        is_zero: Z,
        accumulate: A,
        output: int,
        trace: Seq<Seq<T>>,
        k: int,
    ) -> bool {
        self.visit(is_zero, accumulate, output - k, trace[k], trace[k + 1])
    }

    /// `trace` lists the adjoints before each visit of a sweep from `output`
    /// down to entry 0, and after the last one.
    pub open spec fn sweep_trace<Z: Fn(T) -> bool, A: Fn(T, T, T) -> T>(
        self,
        is_zero: Z,
        accumulate: A,
        output: int,
        start: Seq<T>,
        end: Seq<T>,
        trace: Seq<Seq<T>>,
    ) -> bool {
        &&& trace.len() == output + 2
        &&& trace[0] == start
        &&& trace[output + 1] == end
        &&& forall|k: int|
            0 <= k <= output ==> #[trigger] self.sweep_step(is_zero, accumulate, output, trace, k)
    }

    /// A backward sweep from `output` that starts at the adjoints `start` can
    /// end at `end`.
    pub open spec fn sweeps<Z: Fn(T) -> bool, A: Fn(T, T, T) -> T>(
        self,
        is_zero: Z,
        accumulate: A,
        output: int,
        start: Seq<T>,
        end: Seq<T>,
    ) -> bool {
        exists|trace: Seq<Seq<T>>|
            #[trigger] self.sweep_trace(is_zero, accumulate, output, start, end, trace)
    }

    /// Every parent slot points at an earlier entry, or back at its own
    /// entry with a `zero` partial, so that a sweep through a self-link
    /// adds nothing.
    pub open spec fn self_links_inert(self, zero: T) -> bool {
        forall|j: int, k: int|
            #![trigger self.parent(j, k)]
            0 <= j < self.size() && (k == 0 || k == 1) ==> self.parent(j, k) < j || (self.parent(
                j,
                k,
            ) == j && self.partial(j, k) == zero)
    }

    /// `next` is this tape with one more entry recorded at its end.
    pub open spec fn records_one_more(self, next: Tape<T>) -> bool {
        &&& next.size() == self.size() + 1
        &&& next.links().subrange(0, self.size() as int) == self.links()
    }

    /// The sensitivity that the last sweep left for entry `index`: its
    /// adjoint when the sweep reached it, `zero` otherwise.
    pub open spec fn adjoint_at(self, index: int, zero: T) -> T {
        if 0 <= index < self.adjoints().len() {
            self.adjoints()[index]
        } else {
            zero
        }
    }
}


/// Along a parent link, feeding carries over: whatever entry `i` feeds, each
/// parent of `i` feeds too.
pub proof fn lemma_parent_feeds<T>(tape: Tape<T>, i: int, k: int, output: int)
    requires
        tape.wf(),
        0 <= i < tape.size(),
        k == 0 || k == 1,
        tape.feeds(i, output),
    ensures
        tape.feeds(tape.parent(i, k), output),
    decreases output,
{
    let p = tape.parent(i, k);
    assert(tape.links()[i].0 <= i && tape.links()[i].1 <= i);
    if output == i {
        if p < i {
            assert(tape.feeds(p, p));
        }
    } else {
        let q0 = tape.parent(output, 0);
        let q1 = tape.parent(output, 1);
        if 0 <= q0 < output && tape.feeds(i, q0) {
            lemma_parent_feeds(tape, i, k, q0);
        } else {
            lemma_parent_feeds(tape, i, k, q1);
        }
    }
}

/// Appending the entry `(link, pair)` keeps self-links inert when each of
/// its slots points at an earlier entry or at itself with a `zero` partial.
proof fn lemma_append_keeps_inert<T>(
    before: Tape<T>,
    after: Tape<T>,
    link: (u32, u32),
    pair: [T; 2],
    zero: T,
)
    requires
        before.partial_pairs().len() == before.size(),
        after.links() == before.links().push(link),
        after.partial_pairs() == before.partial_pairs().push(pair),
        link.0 < before.size() || (link.0 == before.size() && pair@[0] == zero),
        link.1 < before.size() || (link.1 == before.size() && pair@[1] == zero),
        before.self_links_inert(zero),
    ensures
        after.self_links_inert(zero),
{
    assert forall|j: int, k: int| 0 <= j < after.size() && (k == 0 || k == 1) implies #[trigger] after.parent(j, k) < j
        || (after.parent(j, k) == j && after.partial(j, k) == zero) by {
        if j < before.size() {
            assert(after.links()[j] == before.links()[j]);
            assert(after.partial_pairs()[j] == before.partial_pairs()[j]);
            assert(before.parent(j, k) < j || (before.parent(j, k) == j && before.partial(j, k) == zero));
        } else {
            assert(after.links()[j] == link);
            assert(after.partial_pairs()[j] == pair);
        }
    }
}

impl<T: Copy> Tape<T> {
    /// A fresh, empty tape whose links live in a newly reserved arena.
    ///
    /// The arena is leaked to get the `'static` lifetime that the arena
    /// vector borrows it for; it belongs to its tape for the rest of the
    /// program anyway.
    pub fn new() -> (tape: Tape<T>)
        ensures
            tape.wf(),
            tape.size() == 0,
            tape.adjoints() == Seq::<T>::empty(),
            forall|zero: T| #[trigger] tape.self_links_inert(zero),
    {
        let arena: &'static Bump = leak_arena(Box::new(arena_with_capacity(ARENA_BYTES)));
        Tape { links: links_new_in(arena), partials: Vec::new(), adjoints: Vec::new() }
    }

    /// Record `node` at the end of the tape and return its index.
    pub fn push(&mut self, node: Node<T>) -> (index: u32)
        requires
            old(self).wf(),
            old(self).size() <= u32::MAX,
            node.parents[0] <= old(self).size(),
            node.parents[1] <= old(self).size(),
        ensures
            final(self).wf(),
            index == old(self).size(),
            final(self).links() == old(self).links().push((node.parents[0], node.parents[1])),
            final(self).partial_pairs() == old(self).partial_pairs().push(node.partials),
            final(self).adjoints() == old(self).adjoints(),
    {
        let index = links_len(&self.links) as u32;
        links_push(&mut self.links, (node.parents[0], node.parents[1]));
        self.partials.push(node.partials);
        proof {
            assert(self.partials.len() == self.partials@.len());
            let n = self.links();
            assert forall|i: int| 0 <= i < n.len() implies n[i].0 <= i && n[i].1 <= i by {
                if i < n.len() - 1 {
                    assert(n[i] == old(self).links()[i]);
                }
            }
        }
        index
    }
}

/// Record an independent variable and return its index. Its parents are
/// itself, with `zero` partials.
pub fn push_leaf<T: Copy>(tape: &mut Tape<T>, zero: T) -> (index: u32)
    requires
        old(tape).wf(),
        old(tape).size() <= u32::MAX,
    ensures
        final(tape).wf(),
        index == old(tape).size(),
        final(tape).links() == old(tape).links().push((index, index)),
        final(tape).partial_pairs() == old(tape).partial_pairs().push([zero, zero]),
        final(tape).adjoints() == old(tape).adjoints(),
        old(tape).self_links_inert(zero) ==> final(tape).self_links_inert(zero),
{
    let index = links_len(&tape.links) as u32;
    let result = tape.push(Node { parents: [index, index], partials: [zero, zero] });
    proof {
        if old(tape).self_links_inert(zero) {
            lemma_append_keeps_inert(*old(tape), *tape, (index, index), [zero, zero], zero);
        }
    }
    result
}

/// Record a one-input operation whose partial with respect to `parent` is
/// `partial`; the second slot repeats the parent with a `zero` partial.
pub fn push_unary<T: Copy>(tape: &mut Tape<T>, parent: u32, partial: T, zero: T) -> (index: u32)
    requires
        old(tape).wf(),
        old(tape).size() <= u32::MAX,
        parent < old(tape).size(),
    ensures
        final(tape).wf(),
        index == old(tape).size(),
        final(tape).links() == old(tape).links().push((parent, parent)),
        final(tape).partial_pairs() == old(tape).partial_pairs().push([partial, zero]),
        final(tape).adjoints() == old(tape).adjoints(),
        forall|z: T|
            old(tape).self_links_inert(z) ==> #[trigger] final(tape).self_links_inert(z),
{
    let result = tape.push(Node { parents: [parent, parent], partials: [partial, zero] });
    proof {
        assert forall|z: T| old(tape).self_links_inert(z) implies #[trigger] tape.self_links_inert(z) by {
            lemma_append_keeps_inert(*old(tape), *tape, (parent, parent), [partial, zero], z);
        }
    }
    result
}

/// Record a two-input operation with both local partial derivatives.
pub fn push_binary<T: Copy>(tape: &mut Tape<T>, left: u32, d_left: T, right: u32, d_right: T) -> (index: u32)
    requires
        old(tape).wf(),
        old(tape).size() <= u32::MAX,
        left < old(tape).size(),
        right < old(tape).size(),
    ensures
        final(tape).wf(),
        index == old(tape).size(),
        final(tape).links() == old(tape).links().push((left, right)),
        final(tape).partial_pairs() == old(tape).partial_pairs().push([d_left, d_right]),
        final(tape).adjoints() == old(tape).adjoints(),
        forall|z: T|
            old(tape).self_links_inert(z) ==> #[trigger] final(tape).self_links_inert(z),
{
    let result = tape.push(Node { parents: [left, right], partials: [d_left, d_right] });
    proof {
        assert forall|z: T| old(tape).self_links_inert(z) implies #[trigger] tape.self_links_inert(z) by {
            lemma_append_keeps_inert(*old(tape), *tape, (left, right), [d_left, d_right], z);
        }
    }
    result
}

/// Look up the adjoint that entry `index` got in the last backward sweep;
/// an entry that the sweep did not reach (recorded after its output) has
/// sensitivity `zero`.
pub fn adjoint_of<T: Copy>(tape: &Tape<T>, index: u32, zero: T) -> (adjoint: T)
    ensures
        adjoint == tape.adjoint_at(index as int, zero),
        index < tape.adjoints().len() ==> adjoint == tape.adjoints()[index as int],
        index >= tape.adjoints().len() ==> adjoint == zero,
{
    if (index as usize) < tape.adjoints.len() {
        tape.adjoints[index as usize]
    } else {
        zero
    }
}

/// Throw away everything recorded so far, keeping the arena's memory for
/// the next path.
pub fn reset<T>(tape: &mut Tape<T>)
    requires
        old(tape).wf(),
    ensures
        final(tape).wf(),
        final(tape).size() == 0,
        final(tape).adjoints() == Seq::<T>::empty(),
        forall|zero: T| #[trigger] final(tape).self_links_inert(zero),
{
    links_clear(&mut tape.links);
    tape.partials.clear();
    tape.adjoints.clear();
}

/// Seed the adjoint of `output` at `one` and propagate it back through every
/// entry recorded up to it, from `output` down to entry 0.
///
/// Entries recorded after `output` cannot have influenced it, so the sweep
/// starts at `output` rather than at the end of the tape. An entry whose
/// adjoint `is_zero` recognises is passed over; for any other entry `i`,
/// `accumulate(parent_adjoint, adjoint_i, partial)` is stored into each of its
/// two parents in turn (the chain rule's `parent += adjoint * partial`).
pub fn run_backward<T: Copy, Z: Fn(T) -> bool, A: Fn(T, T, T) -> T>(
    tape: &mut Tape<T>,
    output: u32,
    zero: T,
    one: T,
    is_zero: Z,
    accumulate: A,
)
    requires
        old(tape).wf(),
        output < old(tape).size(),
        forall|x: T| call_requires(is_zero, (x,)),
        forall|x: T, y: T, z: T| call_requires(accumulate, (x, y, z)),
    ensures
        final(tape).wf(),
        final(tape).links() == old(tape).links(),
        final(tape).partial_pairs() == old(tape).partial_pairs(),
        final(tape).adjoints().len() == output + 1,
        old(tape).sweeps(
            is_zero,
            accumulate,
            output as int,
            seed((output + 1) as nat, output as int, zero, one),
            final(tape).adjoints(),
        ),
        recognizes_zero(is_zero, zero) ==> forall|j: int|
            0 <= j <= output && !old(tape).feeds(j, output as int) ==> final(tape).adjoints()[j]
                == zero,
        forall|plus: spec_fn(T, T) -> T, times: spec_fn(T, T) -> T|
            #[trigger] ring_arithmetic(is_zero, accumulate, zero, plus, times)
                && old(tape).self_links_inert(zero) ==> {
                &&& final(tape).adjoints()[output as int] == one
                &&& forall|i: int|
                    0 <= i < output ==> #[trigger] final(tape).adjoints()[i] == chain_sum(
                        *old(tape),
                        final(tape).adjoints(),
                        plus,
                        times,
                        zero,
                        i,
                        i + 1,
                        output as int,
                    )
            },
{
    let ghost t0 = *tape;
    let len: usize = output as usize + 1;

    tape.adjoints.clear();
    let mut k: usize = 0;
    while k < len
        invariant
            k <= len,
            tape.adjoints@ == Seq::new(k as nat, |j: int| zero),
            tape.links() == t0.links(),
            tape.partial_pairs() == t0.partial_pairs(),
        decreases len - k,
    {
        tape.adjoints.push(zero);
        k = k + 1;
    }
    tape.adjoints.set(output as usize, one);

    let ghost start = tape.adjoints@;
    assert(start == seed(len as nat, output as int, zero, one));
    let ghost mut trace: Seq<Seq<T>> = seq![start];

    let mut i: usize = len;
    while i > 0
        invariant
            t0.wf(),
            len == output + 1,
            output < t0.size(),
            tape.links() == t0.links(),
            tape.partial_pairs() == t0.partial_pairs(),
            i <= len,
            tape.adjoints@.len() == len,
            trace.len() == len - i + 1,
            trace[0] == start,
            trace[len - i] == tape.adjoints@,
            forall|s: int|
                0 <= s < len - i ==> #[trigger] t0.sweep_step(
                    is_zero,
                    accumulate,
                    output as int,
                    trace,
                    s,
                ),
            recognizes_zero(is_zero, zero) ==> forall|j: int|
                0 <= j < len && !t0.feeds(j, output as int) ==> tape.adjoints@[j] == zero,
            forall|x: T| call_requires(is_zero, (x,)),
            forall|x: T, y: T, z: T| call_requires(accumulate, (x, y, z)),
        decreases i,
    {
        i = i - 1;
        let ghost before = tape.adjoints@;
        let ghost prev_trace = trace;
        let adjoint = tape.adjoints[i];
        let skip = is_zero(adjoint);
        if !skip {
            let link = links_get(&tape.links, i);
            let partials = tape.partials[i];
            assert(t0.links()[i as int].0 <= i && t0.links()[i as int].1 <= i);

            let current = tape.adjoints[link.0 as usize];
            let updated = accumulate(current, adjoint, partials[0]);
            tape.adjoints.set(link.0 as usize, updated);
            let ghost mid = tape.adjoints@;

            let current = tape.adjoints[link.1 as usize];
            let updated = accumulate(current, adjoint, partials[1]);
            tape.adjoints.set(link.1 as usize, updated);

            proof {
                assert(accumulated(accumulate, before, t0.parent(i as int, 0), adjoint, t0.partial(i as int, 0), mid));
                assert(accumulated(accumulate, mid, t0.parent(i as int, 1), adjoint, t0.partial(i as int, 1), tape.adjoints@));
                if recognizes_zero(is_zero, zero) {
                    assert(adjoint != zero);
                    assert(t0.feeds(i as int, output as int));
                    lemma_parent_feeds(t0, i as int, 0, output as int);
                    lemma_parent_feeds(t0, i as int, 1, output as int);
                }
            }
        }
        proof {
            trace = trace.push(tape.adjoints@);
            assert(t0.visit(is_zero, accumulate, i as int, before, tape.adjoints@));
            assert forall|s: int| 0 <= s < len - i implies #[trigger] t0.sweep_step(
                is_zero,
                accumulate,
                output as int,
                trace,
                s,
            ) by {
                if s < len - i - 1 {
                    assert(prev_trace.len() == len - i);
                    assert(trace[s] == prev_trace[s]);
                    assert(trace[s + 1] == prev_trace[s + 1]);
                    assert(t0.sweep_step(is_zero, accumulate, output as int, prev_trace, s));
                }
            }
        }
    }
    proof {
        assert(t0.sweep_trace(is_zero, accumulate, output as int, start, tape.adjoints@, trace));
        assert forall|plus: spec_fn(T, T) -> T, times: spec_fn(T, T) -> T|
            #[trigger] ring_arithmetic(is_zero, accumulate, zero, plus, times)
                && t0.self_links_inert(zero) implies {
                &&& tape.adjoints@[output as int] == one
                &&& forall|i: int|
                    0 <= i < output ==> #[trigger] tape.adjoints@[i] == chain_sum(
                        t0,
                        tape.adjoints@,
                        plus,
                        times,
                        zero,
                        i,
                        i + 1,
                        output as int,
                    )
            } by {
            law_sweep_follows_chain_rule(
                t0,
                is_zero,
                accumulate,
                zero,
                one,
                plus,
                times,
                output as int,
                tape.adjoints@,
            );
        }
    }
}

/// Two tapes whose entry `i` is the same visit it alike.
proof fn lemma_visit_same_entry<T, Z: Fn(T) -> bool, A: Fn(T, T, T) -> T>(
    first: Tape<T>,
    second: Tape<T>,
    is_zero: Z,
    accumulate: A,
    i: int,
    before: Seq<T>,
    after: Seq<T>,
)
    requires
        first.links()[i] == second.links()[i],
        first.partial_pairs()[i] == second.partial_pairs()[i],
    ensures
        first.visit(is_zero, accumulate, i, before, after) == second.visit(
            is_zero,
            accumulate,
            i,
            before,
            after,
        ),
{
    let adjoint = before[i];
    assert(first.parent(i, 0) == second.parent(i, 0));
    assert(first.parent(i, 1) == second.parent(i, 1));
    assert(first.partial(i, 0) == second.partial(i, 0));
    assert(first.partial(i, 1) == second.partial(i, 1));
    if first.visit(is_zero, accumulate, i, before, after) && !(call_ensures(
        is_zero,
        (adjoint,),
        true,
    ) && after == before) {
        let mid = choose|mid: Seq<T>|
            #[trigger] accumulated(
                accumulate,
                before,
                first.parent(i, 0),
                adjoint,
                first.partial(i, 0),
                mid,
            ) && accumulated(accumulate, mid, first.parent(i, 1), adjoint, first.partial(i, 1), after);
        assert(accumulated(accumulate, before, second.parent(i, 0), adjoint, second.partial(i, 0), mid));
    }
    if second.visit(is_zero, accumulate, i, before, after) && !(call_ensures(
        is_zero,
        (adjoint,),
        true,
    ) && after == before) {
        let mid = choose|mid: Seq<T>|
            #[trigger] accumulated(
                accumulate,
                before,
                second.parent(i, 0),
                adjoint,
                second.partial(i, 0),
                mid,
            ) && accumulated(accumulate, mid, second.parent(i, 1), adjoint, second.partial(i, 1), after);
        assert(accumulated(accumulate, before, first.parent(i, 0), adjoint, first.partial(i, 0), mid));
    }
}

/// After a backward sweep from `output` (which leaves `output + 1`
/// adjoints), every entry recorded after `output` has sensitivity `zero`:
/// it cannot have influenced the output.
pub proof fn law_later_entries_have_zero_sensitivity<T>(
    tape: Tape<T>,
    output: int,
    index: int,
    zero: T,
)
    requires
        0 <= output,
        tape.adjoints().len() == output + 1,
        output < index,
    ensures
        tape.adjoint_at(index, zero) == zero,
{
}

/// A backward sweep from `output` reads only the entries up to `output`: two
/// tapes that agree on those entries admit exactly the same sweeps, whatever
/// each recorded after `output`.
pub proof fn law_sweep_ignores_later_entries<T, Z: Fn(T) -> bool, A: Fn(T, T, T) -> T>(
    first: Tape<T>,
    second: Tape<T>,
    is_zero: Z,
    accumulate: A,
    output: int,
    start: Seq<T>,
    end: Seq<T>,
)
    requires
        0 <= output < first.size(),
        output < second.size(),
        first.links().subrange(0, output + 1) == second.links().subrange(0, output + 1),
        first.partial_pairs().len() == first.size(),
        second.partial_pairs().len() == second.size(),
        first.partial_pairs().subrange(0, output + 1) == second.partial_pairs().subrange(
            0,
            output + 1,
        ),
    ensures
        first.sweeps(is_zero, accumulate, output, start, end) == second.sweeps(
            is_zero,
            accumulate,
            output,
            start,
            end,
        ),
{
    assert forall|i: int| 0 <= i <= output implies first.links()[i] == second.links()[i]
        && first.partial_pairs()[i] == second.partial_pairs()[i] by {
        assert(first.links()[i] == first.links().subrange(0, output + 1)[i]);
        assert(second.links()[i] == second.links().subrange(0, output + 1)[i]);
        assert(first.partial_pairs()[i] == first.partial_pairs().subrange(0, output + 1)[i]);
        assert(second.partial_pairs()[i] == second.partial_pairs().subrange(0, output + 1)[i]);
    }
    assert forall|trace: Seq<Seq<T>>|
        first.sweep_trace(is_zero, accumulate, output, start, end, trace) == second.sweep_trace(
            is_zero,
            accumulate,
            output,
            start,
            end,
            trace,
        ) by {
        assert forall|k: int| 0 <= k <= output implies first.sweep_step(
            is_zero,
            accumulate,
            output,
            trace,
            k,
        ) == second.sweep_step(is_zero, accumulate, output, trace, k) by {
            let i = output - k;
            assert(first.links()[i] == second.links()[i]);
            assert(first.partial_pairs()[i] == second.partial_pairs()[i]);
            lemma_visit_same_entry(first, second, is_zero, accumulate, i, trace[k], trace[k + 1]);
        }
    }
    if first.sweeps(is_zero, accumulate, output, start, end) {
        let trace = choose|trace: Seq<Seq<T>>|
            first.sweep_trace(is_zero, accumulate, output, start, end, trace);
        assert(second.sweep_trace(is_zero, accumulate, output, start, end, trace));
    }
    if second.sweeps(is_zero, accumulate, output, start, end) {
        let trace = choose|trace: Seq<Seq<T>>|
            second.sweep_trace(is_zero, accumulate, output, start, end, trace);
        assert(first.sweep_trace(is_zero, accumulate, output, start, end, trace));
    }
}

/// A leaf points both parent slots back at itself with `zero` partials, so
/// when accumulating `zero` times an adjoint adds nothing, the sweep's visit
/// of a leaf leaves every adjoint as it was: leaves need no special case.
pub proof fn law_leaf_visit_changes_nothing<T, Z: Fn(T) -> bool, A: Fn(T, T, T) -> T>(
    tape: Tape<T>,
    is_zero: Z,
    accumulate: A,
    zero: T,
    i: int,
    before: Seq<T>,
    after: Seq<T>,
)
    requires
        0 <= i < tape.size(),
        i < tape.partial_pairs().len(),
        tape.links()[i] == (i as u32, i as u32),
        tape.partial_pairs()[i] == [zero, zero],
        forall|x: T, a: T, r: T| call_ensures(accumulate, (x, a, zero), r) ==> r == x,
        tape.visit(is_zero, accumulate, i, before, after),
    ensures
        after == before,
{
    let adjoint = before[i];
    if !(call_ensures(is_zero, (adjoint,), true) && after == before) {
        let mid = choose|mid: Seq<T>|
            #[trigger] accumulated(
                accumulate,
                before,
                tape.parent(i, 0),
                adjoint,
                tape.partial(i, 0),
                mid,
            ) && accumulated(accumulate, mid, tape.parent(i, 1), adjoint, tape.partial(i, 1), after);
        assert(tape.partial(i, 0) == zero);
        assert(tape.partial(i, 1) == zero);
        assert(mid =~= before);
        assert(after =~= mid);
    }
}

/// With functional closures, a visit's outcome is determined by what it
/// starts from.
proof fn lemma_visit_unique<T, Z: Fn(T) -> bool, A: Fn(T, T, T) -> T>(
    tape: Tape<T>,
    is_zero: Z,
    accumulate: A,
    i: int,
    before: Seq<T>,
    after1: Seq<T>,
    after2: Seq<T>,
)
    requires
        functional(is_zero, accumulate),
        tape.visit(is_zero, accumulate, i, before, after1),
        tape.visit(is_zero, accumulate, i, before, after2),
    ensures
        after1 == after2,
{
    let adjoint = before[i];
    if call_ensures(is_zero, (adjoint,), true) && after1 == before {
        if !(call_ensures(is_zero, (adjoint,), true) && after2 == before) {
            assert(call_ensures(is_zero, (adjoint,), false));
        }
    } else {
        assert(call_ensures(is_zero, (adjoint,), false));
        if call_ensures(is_zero, (adjoint,), true) && after2 == before {
            assert(false);
        }
        let p0 = tape.parent(i, 0);
        let p1 = tape.parent(i, 1);
        let d0 = tape.partial(i, 0);
        let d1 = tape.partial(i, 1);
        let mid1 = choose|mid: Seq<T>|
            #[trigger] accumulated(accumulate, before, p0, adjoint, d0, mid) && accumulated(
                accumulate,
                mid,
                p1,
                adjoint,
                d1,
                after1,
            );
        let mid2 = choose|mid: Seq<T>|
            #[trigger] accumulated(accumulate, before, p0, adjoint, d0, mid) && accumulated(
                accumulate,
                mid,
                p1,
                adjoint,
                d1,
                after2,
            );
        assert(mid1[p0] == mid2[p0]);
        assert(mid1 =~= mid2);
        assert(after1[p1] == after2[p1]);
        assert(after1 =~= after2);
    }
}

/// When the zero test and the multiply-and-add are functions, a backward
/// sweep from `output` that starts at `start` has exactly one end.
pub proof fn law_sweep_end_is_unique<T, Z: Fn(T) -> bool, A: Fn(T, T, T) -> T>(
    tape: Tape<T>,
    is_zero: Z,
    accumulate: A,
    output: int,
    start: Seq<T>,
    end1: Seq<T>,
    end2: Seq<T>,
)
    requires
        0 <= output,
        functional(is_zero, accumulate),
        tape.sweeps(is_zero, accumulate, output, start, end1),
        tape.sweeps(is_zero, accumulate, output, start, end2),
    ensures
        end1 == end2,
{
    let trace1 = choose|trace: Seq<Seq<T>>|
        tape.sweep_trace(is_zero, accumulate, output, start, end1, trace);
    let trace2 = choose|trace: Seq<Seq<T>>|
        tape.sweep_trace(is_zero, accumulate, output, start, end2, trace);
    lemma_traces_agree(tape, is_zero, accumulate, output, start, end1, end2, trace1, trace2, output + 1);
}

/// Two traces of sweeps from the same start agree on their first `k + 1`
/// states, when the arithmetic is functional.
proof fn lemma_traces_agree<T, Z: Fn(T) -> bool, A: Fn(T, T, T) -> T>(
    tape: Tape<T>,
    is_zero: Z,
    accumulate: A,
    output: int,
    start: Seq<T>,
    end1: Seq<T>,
    end2: Seq<T>,
    trace1: Seq<Seq<T>>,
    trace2: Seq<Seq<T>>,
    k: int,
)
    requires
        0 <= k <= output + 1,
        functional(is_zero, accumulate),
        tape.sweep_trace(is_zero, accumulate, output, start, end1, trace1),
        tape.sweep_trace(is_zero, accumulate, output, start, end2, trace2),
    ensures
        trace1[k] == trace2[k],
    decreases k,
{
    if k > 0 {
        lemma_traces_agree(tape, is_zero, accumulate, output, start, end1, end2, trace1, trace2, k - 1);
        assert(tape.sweep_step(is_zero, accumulate, output, trace1, k - 1));
        assert(tape.sweep_step(is_zero, accumulate, output, trace2, k - 1));
        lemma_visit_unique(
            tape,
            is_zero,
            accumulate,
            output - (k - 1),
            trace1[k - 1],
            trace1[k],
            trace2[k],
        );
    }
}

/// With functional arithmetic, two tapes that agree on every entry up to
/// `output` end a sweep from `output` with the same adjoints, whatever each
/// recorded after `output` and whatever adjoints each held before.
pub proof fn law_agreeing_tapes_sweep_alike<T, Z: Fn(T) -> bool, A: Fn(T, T, T) -> T>(
    first: Tape<T>,
    second: Tape<T>,
    is_zero: Z,
    accumulate: A,
    output: int,
    start: Seq<T>,
    end1: Seq<T>,
    end2: Seq<T>,
)
    requires
        0 <= output < first.size(),
        output < second.size(),
        first.links().subrange(0, output + 1) == second.links().subrange(0, output + 1),
        first.partial_pairs().len() == first.size(),
        second.partial_pairs().len() == second.size(),
        first.partial_pairs().subrange(0, output + 1) == second.partial_pairs().subrange(
            0,
            output + 1,
        ),
        functional(is_zero, accumulate),
        first.sweeps(is_zero, accumulate, output, start, end1),
        second.sweeps(is_zero, accumulate, output, start, end2),
    ensures
        end1 == end2,
{
    law_sweep_ignores_later_entries(first, second, is_zero, accumulate, output, start, end2);
    law_sweep_end_is_unique(first, is_zero, accumulate, output, start, end1, end2);
}

/// With functional arithmetic, sweeping again from the same output changes
/// nothing: `once` is the tape after a sweep from `output` of `before`, and
/// `twice` the tape after a second sweep of `once` from `output`.
pub proof fn law_sweep_again_changes_nothing<T, Z: Fn(T) -> bool, A: Fn(T, T, T) -> T>(
    before: Tape<T>,
    once: Tape<T>,
    twice: Tape<T>,
    is_zero: Z,
    accumulate: A,
    output: int,
    zero: T,
    one: T,
)
    requires
        before.wf(),
        0 <= output < before.size(),
        functional(is_zero, accumulate),
        once.links() == before.links(),
        once.partial_pairs() == before.partial_pairs(),
        before.sweeps(
            is_zero,
            accumulate,
            output,
            seed((output + 1) as nat, output, zero, one),
            once.adjoints(),
        ),
        twice.links() == once.links(),
        twice.partial_pairs() == once.partial_pairs(),
        once.sweeps(
            is_zero,
            accumulate,
            output,
            seed((output + 1) as nat, output, zero, one),
            twice.adjoints(),
        ),
    ensures
        twice.links() == once.links(),
        twice.partial_pairs() == once.partial_pairs(),
        twice.adjoints() == once.adjoints(),
{
    law_agreeing_tapes_sweep_alike(
        before,
        once,
        is_zero,
        accumulate,
        output,
        seed((output + 1) as nat, output, zero, one),
        once.adjoints(),
        twice.adjoints(),
    );
}

/// Starting from an empty tape (fresh, or just reset), after `k` recordings
/// the tape holds `k` entries, and each earlier state's entries stand at the
/// front of it, unchanged.
pub proof fn law_size_counts_recordings<T>(history: Seq<Tape<T>>)
    requires
        history.len() >= 1,
        history[0].size() == 0,
        forall|i: int|
            0 <= i < history.len() - 1 ==> #[trigger] history[i].records_one_more(history[i + 1]),
    ensures
        forall|i: int| 0 <= i < history.len() ==> #[trigger] history[i].size() == i,
        forall|i: int|
            0 <= i < history.len() ==> history.last().links().subrange(0, i) == #[trigger] history[i].links(),
    decreases history.len(),
{
    if history.len() > 1 {
        let shorter = history.drop_last();
        assert forall|i: int| 0 <= i < shorter.len() - 1 implies #[trigger] shorter[i].records_one_more(shorter[i + 1]) by {
            assert(history[i].records_one_more(history[i + 1]));
        }
        law_size_counts_recordings(shorter);
        let n = history.len() - 1;
        assert(history[n - 1].records_one_more(history[n]));
        assert(shorter[n - 1] == history[n - 1]);
        assert(shorter[n - 1].size() == n - 1);
        assert forall|i: int| 0 <= i < history.len() implies #[trigger] history[i].size() == i by {
            if i < n {
                assert(shorter[i] == history[i]);
                assert(shorter[i].size() == i);
            }
        }
        assert forall|i: int| 0 <= i < history.len() implies history.last().links().subrange(0, i)
            == #[trigger] history[i].links() by {
            if i < n {
                assert(shorter[i] == history[i]);
                assert(shorter.last() == history[n - 1]);
                assert(history[n - 1].links().subrange(0, i) == history[i].links());
                assert(history.last().links().subrange(0, i) =~= history[n - 1].links().subrange(0, i));
            } else {
                assert(history.last().links().subrange(0, i) =~= history.last().links());
            }
        }
    }
}

/// The sensitivity read back for an entry is the adjoint the last sweep
/// stored for it, at every index the sweep covered, and `zero` past them.
pub proof fn law_sensitivity_is_stored_adjoint<T>(tape: Tape<T>, index: int, zero: T)
    ensures
        0 <= index < tape.adjoints().len() ==> tape.adjoint_at(index, zero) == tape.adjoints()[index],
        !(0 <= index < tape.adjoints().len()) ==> tape.adjoint_at(index, zero) == zero,
{
}

/// The contribution of parent slot `k` of entry `j` to the adjoint of entry
/// `i`, added onto `acc`: `acc + adj[j] * partial(j, k)` when that slot is a
/// link to `i`, `acc` otherwise.
pub open spec fn chain_step<T>(
    tape: Tape<T>,
    adj: Seq<T>,
    plus: spec_fn(T, T) -> T,
    times: spec_fn(T, T) -> T,
    i: int,
    j: int,
    k: int,
    acc: T,
) -> T {
    if tape.parent(j, k) == i {
        plus(acc, times(adj[j], tape.partial(j, k)))
    } else {
        acc
    }
}

/// The chain rule for entry `i`: the sum, over every entry `j` from `output`
/// down to `lo` and each of its two parent slots that links to `i`, of
/// `adj[j] * partial(j, slot)`, starting from `zero`.
pub open spec fn chain_sum<T>(
    tape: Tape<T>,
    adj: Seq<T>,
    plus: spec_fn(T, T) -> T,
    times: spec_fn(T, T) -> T,
    zero: T,
    i: int,
    lo: int,
    output: int,
) -> T
    decreases output + 1 - lo,
{
    if lo > output {
        zero
    } else {
        let rest = chain_sum(tape, adj, plus, times, zero, i, lo + 1, output);
        chain_step(tape, adj, plus, times, i, lo, 1, chain_step(tape, adj, plus, times, i, lo, 0, rest))
    }
}

/// The arithmetic of a sweep is a ring's: `accumulate(x, y, z)` is
/// `plus(x, times(y, z))`, `is_zero` tests for `zero`, and `zero` is neutral for
/// `plus` and absorbing for `times`.
pub open spec fn ring_arithmetic<T, Z: Fn(T) -> bool, A: Fn(T, T, T) -> T>(
    is_zero: Z,
    accumulate: A,
    zero: T,
    plus: spec_fn(T, T) -> T,
    times: spec_fn(T, T) -> T,
) -> bool {
    &&& forall|x: T| #[trigger] plus(x, zero) == x
    &&& forall|y: T| #[trigger] times(zero, y) == zero
    &&& forall|y: T| #[trigger] times(y, zero) == zero
    &&& forall|x: T, r: bool| call_ensures(is_zero, (x,), r) ==> r == (x == zero)
    &&& forall|x: T, y: T, z: T, r: T|
        call_ensures(accumulate, (x, y, z), r) ==> r == plus(x, times(y, z))
}

/// What one visit of entry `e` does with ring arithmetic: entries from `e`
/// up keep their adjoints, and each entry below `e` gets `e`'s contributions.
proof fn lemma_visit_effect<T, Z: Fn(T) -> bool, A: Fn(T, T, T) -> T>(
    tape: Tape<T>,
    is_zero: Z,
    accumulate: A,
    zero: T,
    plus: spec_fn(T, T) -> T,
    times: spec_fn(T, T) -> T,
    e: int,
    before: Seq<T>,
    after: Seq<T>,
)
    requires
        tape.wf(),
        tape.self_links_inert(zero),
        0 <= e < tape.size(),
        e < before.len(),
        ring_arithmetic(is_zero, accumulate, zero, plus, times),
        tape.visit(is_zero, accumulate, e, before, after),
    ensures
        after.len() == before.len(),
        forall|m: int| e <= m < before.len() ==> after[m] == before[m],
        forall|m: int|
            0 <= m < e ==> after[m] == chain_step(
                tape,
                before,
                plus,
                times,
                m,
                e,
                1,
                chain_step(tape, before, plus, times, m, e, 0, before[m]),
            ),
{
    let a = before[e];
    let p0 = tape.parent(e, 0);
    let p1 = tape.parent(e, 1);
    let d0 = tape.partial(e, 0);
    let d1 = tape.partial(e, 1);
    assert(tape.links()[e].0 <= e && tape.links()[e].1 <= e);
    assert(p0 < e || (p0 == e && d0 == zero));
    assert(p1 < e || (p1 == e && d1 == zero));
    if call_ensures(is_zero, (a,), true) && after == before {
        assert(a == zero);
        assert(times(zero, d0) == zero);
        assert(times(zero, d1) == zero);
        assert forall|m: int| 0 <= m < e implies after[m] == chain_step(
            tape,
            before,
            plus,
            times,
            m,
            e,
            1,
            chain_step(tape, before, plus, times, m, e, 0, before[m]),
        ) by {
            assert(plus(before[m], zero) == before[m]);
        }
    } else {
        assert(call_ensures(is_zero, (a,), false));
        let mid = choose|mid: Seq<T>|
            #[trigger] accumulated(accumulate, before, p0, a, d0, mid) && accumulated(
                accumulate,
                mid,
                p1,
                a,
                d1,
                after,
            );
        assert(mid[p0] == plus(before[p0], times(a, d0)));
        assert(after[p1] == plus(mid[p1], times(a, d1)));
        if p0 == e {
            assert(times(a, zero) == zero);
            assert(plus(before[e], zero) == before[e]);
        }
        if p1 == e {
            assert(times(a, zero) == zero);
            assert(plus(mid[e], zero) == mid[e]);
        }
        assert forall|m: int| e <= m < before.len() implies after[m] == before[m] by {
            assert(mid[m] == before[m]);
        }
    }
}

/// Visited entries already hold their final adjoints: from step `s` on, no
/// entry above `output - s` changes again.
proof fn lemma_visited_are_final<T, Z: Fn(T) -> bool, A: Fn(T, T, T) -> T>(
    tape: Tape<T>,
    is_zero: Z,
    accumulate: A,
    zero: T,
    plus: spec_fn(T, T) -> T,
    times: spec_fn(T, T) -> T,
    output: int,
    start: Seq<T>,
    end: Seq<T>,
    trace: Seq<Seq<T>>,
    s: int,
)
    requires
        tape.wf(),
        tape.self_links_inert(zero),
        0 <= output < tape.size(),
        start.len() == output + 1,
        ring_arithmetic(is_zero, accumulate, zero, plus, times),
        tape.sweep_trace(is_zero, accumulate, output, start, end, trace),
        0 <= s <= output + 1,
    ensures
        trace[s].len() == output + 1,
        forall|m: int| output - s < m <= output ==> #[trigger] trace[s][m] == end[m],
    decreases output + 1 - s,
{
    lemma_trace_lengths(tape, is_zero, accumulate, zero, plus, times, output, start, end, trace, s);
    if s <= output {
        lemma_visited_are_final(tape, is_zero, accumulate, zero, plus, times, output, start, end, trace, s + 1);
        assert(tape.sweep_step(is_zero, accumulate, output, trace, s));
        lemma_visit_effect(tape, is_zero, accumulate, zero, plus, times, output - s, trace[s], trace[s + 1]);
    }
}

/// Every state of a sweep trace holds `output + 1` adjoints.
proof fn lemma_trace_lengths<T, Z: Fn(T) -> bool, A: Fn(T, T, T) -> T>(
    tape: Tape<T>,
    is_zero: Z,
    accumulate: A,
    zero: T,
    plus: spec_fn(T, T) -> T,
    times: spec_fn(T, T) -> T,
    output: int,
    start: Seq<T>,
    end: Seq<T>,
    trace: Seq<Seq<T>>,
    s: int,
)
    requires
        tape.wf(),
        tape.self_links_inert(zero),
        0 <= output < tape.size(),
        start.len() == output + 1,
        ring_arithmetic(is_zero, accumulate, zero, plus, times),
        tape.sweep_trace(is_zero, accumulate, output, start, end, trace),
        0 <= s <= output + 1,
    ensures
        trace[s].len() == output + 1,
    decreases s,
{
    if s > 0 {
        lemma_trace_lengths(tape, is_zero, accumulate, zero, plus, times, output, start, end, trace, s - 1);
        assert(tape.sweep_step(is_zero, accumulate, output, trace, s - 1));
        lemma_visit_effect(tape, is_zero, accumulate, zero, plus, times, output - (s - 1), trace[s - 1], trace[s]);
    }
}

/// Before step `s`, each entry not yet visited (other than the output) holds
/// the chain-rule sum of the contributions of the entries visited so far.
proof fn lemma_pending_hold_partial_sums<T, Z: Fn(T) -> bool, A: Fn(T, T, T) -> T>(
    tape: Tape<T>,
    is_zero: Z,
    accumulate: A,
    zero: T,
    one: T,
    plus: spec_fn(T, T) -> T,
    times: spec_fn(T, T) -> T,
    output: int,
    end: Seq<T>,
    trace: Seq<Seq<T>>,
    s: int,
)
    requires
        tape.wf(),
        tape.self_links_inert(zero),
        0 <= output < tape.size(),
        ring_arithmetic(is_zero, accumulate, zero, plus, times),
        tape.sweep_trace(
            is_zero,
            accumulate,
            output,
            seed((output + 1) as nat, output, zero, one),
            end,
            trace,
        ),
        0 <= s <= output + 1,
    ensures
        forall|m: int|
            0 <= m <= output - s && m < output ==> #[trigger] trace[s][m] == chain_sum(
                tape,
                end,
                plus,
                times,
                zero,
                m,
                output - s + 1,
                output,
            ),
    decreases s,
{
    let start = seed((output + 1) as nat, output, zero, one);
    if s > 0 {
        let e = output - (s - 1);
        lemma_pending_hold_partial_sums(tape, is_zero, accumulate, zero, one, plus, times, output, end, trace, s - 1);
        lemma_trace_lengths(tape, is_zero, accumulate, zero, plus, times, output, start, end, trace, s - 1);
        lemma_visited_are_final(tape, is_zero, accumulate, zero, plus, times, output, start, end, trace, s);
        assert(tape.sweep_step(is_zero, accumulate, output, trace, s - 1));
        lemma_visit_effect(tape, is_zero, accumulate, zero, plus, times, e, trace[s - 1], trace[s]);
        assert(trace[s][e] == end[e]);
        assert forall|m: int| 0 <= m <= output - s && m < output implies #[trigger] trace[s][m] == chain_sum(
            tape,
            end,
            plus,
            times,
            zero,
            m,
            output - s + 1,
            output,
        ) by {
            assert(trace[s - 1][m] == chain_sum(tape, end, plus, times, zero, m, e + 1, output));
            assert(trace[s - 1][e] == trace[s][e]);
        }
    }
}

/// The backward sweep computes the chain rule. With ring arithmetic on a
/// tape whose self-links are inert (as every recording keeps them), a sweep
/// from `output` seeded with `one` ends with `one` at `output` and, at every
/// earlier entry `i`, the sum over every later entry `j` up to `output` and
/// each parent slot of `j` that links to `i` of `end[j] * partial` — so each
/// entry's adjoint is d(output)/d(entry). On a chain of one-input entries the
/// first entry's adjoint is the product of the partials.
pub proof fn law_sweep_follows_chain_rule<T, Z: Fn(T) -> bool, A: Fn(T, T, T) -> T>(
    tape: Tape<T>,
    is_zero: Z,
    accumulate: A,
    zero: T,
    one: T,
    plus: spec_fn(T, T) -> T,
    times: spec_fn(T, T) -> T,
    output: int,
    end: Seq<T>,
)
    requires
        tape.wf(),
        tape.self_links_inert(zero),
        0 <= output < tape.size(),
        ring_arithmetic(is_zero, accumulate, zero, plus, times),
        tape.sweeps(
            is_zero,
            accumulate,
            output,
            seed((output + 1) as nat, output, zero, one),
            end,
        ),
    ensures
        end.len() == output + 1,
        end[output] == one,
        forall|i: int|
            0 <= i < output ==> #[trigger] end[i] == chain_sum(
                tape,
                end,
                plus,
                times,
                zero,
                i,
                i + 1,
                output,
            ),
{
    let start = seed((output + 1) as nat, output, zero, one);
    let trace = choose|trace: Seq<Seq<T>>|
        tape.sweep_trace(is_zero, accumulate, output, start, end, trace);
    lemma_trace_lengths(tape, is_zero, accumulate, zero, plus, times, output, start, end, trace, output + 1);
    assert(end.len() == output + 1);
    lemma_visited_are_final(tape, is_zero, accumulate, zero, plus, times, output, start, end, trace, 1);
    assert(tape.sweep_step(is_zero, accumulate, output, trace, 0));
    lemma_visit_effect(tape, is_zero, accumulate, zero, plus, times, output, trace[0], trace[1]);
    assert(trace[1][output] == end[output]);
    assert forall|i: int| 0 <= i < output implies #[trigger] end[i] == chain_sum(
        tape,
        end,
        plus,
        times,
        zero,
        i,
        i + 1,
        output,
    ) by {
        let s = output - i;
        lemma_pending_hold_partial_sums(tape, is_zero, accumulate, zero, one, plus, times, output, end, trace, s);
        lemma_visited_are_final(tape, is_zero, accumulate, zero, plus, times, output, start, end, trace, s + 1);
        lemma_trace_lengths(tape, is_zero, accumulate, zero, plus, times, output, start, end, trace, s);
        assert(tape.sweep_step(is_zero, accumulate, output, trace, s));
        lemma_visit_effect(tape, is_zero, accumulate, zero, plus, times, i, trace[s], trace[s + 1]);
        assert(trace[s + 1][i] == end[i]);
        assert(trace[s][i] == chain_sum(tape, end, plus, times, zero, i, i + 1, output));
    }
}

/// Number of operations currently recorded.
pub fn len<T>(tape: &Tape<T>) -> (n: usize)
    ensures
        n == tape.size(),
{
    links_len(&tape.links)
}

} // verus!
