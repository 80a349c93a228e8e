//! Distributed training schedules: which slice of a model each agent passes
//! to its successor at each step of a ring all-reduce.

use vstd::prelude::*;

verus! {

/// The slot (chunk number) agent `sender` of `n` handles at `step`: moving
/// forward round the ring while reducing, backward while gathering.
pub open spec fn ring_slot(sender: nat, step: nat, n: nat, gather: bool) -> nat
    recommends
        n > 0,
{
    if gather {
        ((sender + n - step) as nat) % n
    } else {
        (sender + step) % n
    }
}

/// The slice `[start, end)` of a model of `model_size` parameters split
/// into `n` chunks of `model_size / n` that agent `sender` passes on at
/// `step`; the slice is cut at the end of the model.
pub open spec fn ring_chunk_spec(sender: nat, step: nat, n: nat, model_size: nat, gather: bool) -> (nat, nat) {
    let chunk = model_size / n;
    let start = ring_slot(sender, step, n, gather) * chunk;
    let end = start + chunk;
    (start, if end < model_size { end } else { model_size })
}

proof fn lemma_slot_bound(slot: nat, n: nat, model_size: nat)
    requires
        slot < n,
    ensures
        slot * (model_size / n) + model_size / n <= model_size,
{
    let c = model_size / n;
    assert(n * c <= model_size) by (nonlinear_arith)
        requires
            c == model_size / n,
            n > 0,
    ;
    assert(slot * c + c <= n * c) by (nonlinear_arith)
        requires
            slot < n,
    ;
}

/// The slice agent `sender` of `n` passes on at `step` of the
/// reduce-scatter (`gather` false) or all-gather (`gather` true) phase.
pub fn ring_chunk(sender: usize, step: usize, n: usize, model_size: usize, gather: bool) -> (r: (usize, usize))
    requires
        sender < n,
        step < n,
    ensures
        (r.0 as nat, r.1 as nat) == ring_chunk_spec(sender as nat, step as nat, n as nat, model_size as nat, gather),
        r.0 <= r.1 <= model_size,
{
    let chunk = model_size / n;
    let slot: usize = if gather {
        if sender >= step {
            sender - step
        } else {
            sender + (n - step)
        }
    } else {
        if step < n - sender {
            sender + step
        } else {
            step - (n - sender)
        }
    };
    proof {
        if gather {
            if sender >= step {
                assert(((sender + n - step) as nat) % (n as nat) == slot) by {
                    vstd::arithmetic::div_mod::lemma_mod_add_multiples_vanish((sender - step) as int, n as int);
                    vstd::arithmetic::div_mod::lemma_small_mod((sender - step) as nat, n as nat);
                }
            } else {
                vstd::arithmetic::div_mod::lemma_small_mod(slot as nat, n as nat);
            }
        } else {
            if step < n - sender {
                vstd::arithmetic::div_mod::lemma_small_mod(slot as nat, n as nat);
            } else {
                assert(((sender + step) as nat) % (n as nat) == slot) by {
                    vstd::arithmetic::div_mod::lemma_mod_add_multiples_vanish(slot as int, n as int);
                    vstd::arithmetic::div_mod::lemma_small_mod(slot as nat, n as nat);
                }
            }
        }
        assert(slot == ring_slot(sender as nat, step as nat, n as nat, gather));
        lemma_slot_bound(slot as nat, n as nat, model_size as nat);
    }
    let start = slot * chunk;
    let end = start + chunk;
    let cut = if end < model_size {
        end
    } else {
        model_size
    };
    (start, cut)
}

/// At any one step, the slices that different agents pass on do not
/// overlap (when there is at least one parameter per agent).
pub proof fn lemma_ring_chunks_disjoint(a: nat, b: nat, step: nat, n: nat, model_size: nat, gather: bool)
    requires
        a < n,
        b < n,
        step < n,
        a != b,
        model_size >= n,
    ensures
        ({
            let (sa, ea) = ring_chunk_spec(a, step, n, model_size, gather);
            let (sb, eb) = ring_chunk_spec(b, step, n, model_size, gather);
            ea <= sb || eb <= sa
        }),
{
    let c = model_size / n;
    let x = ring_slot(a, step, n, gather);
    let y = ring_slot(b, step, n, gather);
    assert(x != y) by {
        if gather {
            vstd::arithmetic::div_mod::lemma_fundamental_div_mod((a + n - step) as int, n as int);
            vstd::arithmetic::div_mod::lemma_fundamental_div_mod((b + n - step) as int, n as int);
            if x == y {
                let qa = ((a + n - step) as int) / (n as int);
                let qb = ((b + n - step) as int) / (n as int);
                assert((a as int) - (b as int) == (n as int) * (qa - qb)) by (nonlinear_arith)
                    requires
                        (a + n - step) as int == (n as int) * qa + (x as int),
                        (b + n - step) as int == (n as int) * qb + (y as int),
                        x == y,
                ;
                assert(false) by (nonlinear_arith)
                    requires
                        (a as int) - (b as int) == (n as int) * (qa - qb),
                        a < n,
                        b < n,
                        a != b,
                ;
            }
        } else {
            vstd::arithmetic::div_mod::lemma_fundamental_div_mod((a + step) as int, n as int);
            vstd::arithmetic::div_mod::lemma_fundamental_div_mod((b + step) as int, n as int);
            if x == y {
                let qa = ((a + step) as int) / (n as int);
                let qb = ((b + step) as int) / (n as int);
                assert((a as int) - (b as int) == (n as int) * (qa - qb)) by (nonlinear_arith)
                    requires
                        (a + step) as int == (n as int) * qa + (x as int),
                        (b + step) as int == (n as int) * qb + (y as int),
                        x == y,
                ;
                assert(false) by (nonlinear_arith)
                    requires
                        (a as int) - (b as int) == (n as int) * (qa - qb),
                        a < n,
                        b < n,
                        a != b,
                ;
            }
        }
    }
    if x < y {
        assert(x * c + c <= y * c) by (nonlinear_arith)
            requires
                x < y,
        ;
    } else {
        assert(y * c + c <= x * c) by (nonlinear_arith)
            requires
                y < x,
        ;
    }
}

} // verus!
