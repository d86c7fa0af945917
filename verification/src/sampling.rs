//! Random choice of the rows that seed the initial cluster centers.
use vstd::prelude::*;
use rand::Rng;
use rand::SeedableRng;
use rand::rngs::ThreadRng;
use rand_xorshift::XorShiftRng;

verus! {

/// The seed of the generator that picks the initial centers of a parallel
/// fit, so that every fit of the same data starts from the same centers.
pub const FIXED_SEED: u64 = 42;

#[verifier::external_type_specification]
#[verifier::external_body]
pub struct ExXorShiftRng(XorShiftRng);

#[verifier::external_type_specification]
#[verifier::external_body]
pub struct ExThreadRng(ThreadRng);

/// The state of a xorshift generator seeded with `seed`.
pub uninterp spec fn seeded_xorshift(seed: u64) -> XorShiftRng;

/// The index in `0..bound` that `gen_range(0..bound)` draws from a xorshift
/// generator in state `rng`.
pub uninterp spec fn xorshift_draw(rng: XorShiftRng, bound: usize) -> usize;

/// The state of a xorshift generator after `gen_range(0..bound)` has drawn
/// from it in state `rng`.
pub uninterp spec fn xorshift_after_draw(rng: XorShiftRng, bound: usize) -> XorShiftRng;

/// `count` indices in `0..bound` drawn one after the other from a xorshift
/// generator that starts in state `rng`.
pub open spec fn xorshift_draws(rng: XorShiftRng, count: nat, bound: usize) -> Seq<usize>
    decreases count,
{
    if count == 0 {
        Seq::empty()
    } else {
        seq![xorshift_draw(rng, bound)] + xorshift_draws(
            xorshift_after_draw(rng, bound),
            (count - 1) as nat,
            bound,
        )
    }
}

/// `<XorShiftRng as SeedableRng>::seed_from_u64`: the generator's state is a
/// function of the seed alone (the seed is expanded by a fixed PCG32 step).
#[verifier::external_body]
fn seed_xorshift(seed: u64) -> (rng: XorShiftRng)
    ensures
        rng == seeded_xorshift(seed),
{
    XorShiftRng::seed_from_u64(seed)
}

/// `Rng::gen_range(0..bound)` on a xorshift generator: an index below
/// `bound` that, like the generator's next state, is a function of the
/// generator's state and of `bound` alone. `gen_range` panics on an empty
/// range, hence `bound >= 1`.
#[verifier::external_body]
fn xorshift_index(rng: &mut XorShiftRng, bound: usize) -> (index: usize)
    requires
        bound >= 1,
    ensures
        index < bound,
        index == xorshift_draw(*old(rng), bound),
        *final(rng) == xorshift_after_draw(*old(rng), bound),
{
    rng.gen_range(0..bound)
}

/// `Rng::gen_range(0..bound)` on the thread-local generator: some index
/// below `bound`, which one being left to chance. `gen_range` panics on an
/// empty range, hence `bound >= 1`.
#[verifier::external_body]
fn thread_index(rng: &mut ThreadRng, bound: usize) -> (index: usize)
    requires
        bound >= 1,
    ensures
        index < bound,
{
    rng.gen_range(0..bound)
}

/// The state of a xorshift generator that started in state `rng` after `k`
/// draws of `gen_range(0..bound)`.
pub open spec fn xorshift_state_after(rng: XorShiftRng, k: nat, bound: usize) -> XorShiftRng
    decreases k,
{
    if k == 0 {
        rng
    } else {
        xorshift_after_draw(xorshift_state_after(rng, (k - 1) as nat, bound), bound)
    }
}

/// Drawing law: of `count >= 1` successive draws below `bound`, the first
/// is the draw from the starting state and the others continue, with the
/// same bound, from the state after it; so the `k`-th is the draw from the
/// state left by the `k` draws before it.
pub proof fn lemma_xorshift_draws(rng: XorShiftRng, count: nat, bound: usize)
    ensures
        xorshift_draws(rng, count, bound).len() == count,
        count >= 1 ==> xorshift_draws(rng, count, bound)[0] == xorshift_draw(rng, bound),
        count >= 1 ==> xorshift_draws(rng, count, bound).drop_first() == xorshift_draws(
            xorshift_after_draw(rng, bound),
            (count - 1) as nat,
            bound,
        ),
        forall|k: int|
            0 <= k < count ==> #[trigger] xorshift_draws(rng, count, bound)[k] == xorshift_draw(
                xorshift_state_after(rng, k as nat, bound),
                bound,
            ),
    decreases count,
{
    lemma_draws_len(rng, count, bound);
    if count >= 1 {
        let next = xorshift_after_draw(rng, bound);
        let rest = xorshift_draws(next, (count - 1) as nat, bound);
        lemma_xorshift_draws(next, (count - 1) as nat, bound);
        let all = xorshift_draws(rng, count, bound);
        assert(all == seq![xorshift_draw(rng, bound)] + rest);
        assert(all.drop_first() =~= rest);
        assert forall|k: int| 0 <= k < count implies #[trigger] all[k] == xorshift_draw(
            xorshift_state_after(rng, k as nat, bound),
            bound,
        ) by {
            if k > 0 {
                assert(all[k] == rest[k - 1]);
                lemma_state_after_shift(rng, (k - 1) as nat, bound);
            }
        }
    }
}

/// Taking `k + 1` draws from `rng` leaves the state that `k` draws leave
/// from the state after the first draw.
proof fn lemma_state_after_shift(rng: XorShiftRng, k: nat, bound: usize)
    ensures
        xorshift_state_after(rng, k + 1, bound) == xorshift_state_after(
            xorshift_after_draw(rng, bound),
            k,
            bound,
        ),
    decreases k,
{
    if k > 0 {
        lemma_state_after_shift(rng, (k - 1) as nat, bound);
        assert(xorshift_state_after(rng, k + 1, bound) == xorshift_after_draw(
            xorshift_state_after(rng, k, bound),
            bound,
        ));
    } else {
        assert(xorshift_state_after(rng, 0, bound) == rng);
        assert(xorshift_state_after(rng, 1, bound) == xorshift_after_draw(rng, bound));
    }
}

/// `count` row indices below `n_rows`, drawn from a xorshift generator
/// seeded with `seed`: the `k`-th is the draw of `gen_range(0..n_rows)`
/// from the generator after the `k` draws before it.
pub fn seeded_rows(seed: u64, count: usize, n_rows: usize) -> (rows: Vec<usize>)
    requires
        n_rows >= 1 || count == 0,
    ensures
        rows@ == xorshift_draws(seeded_xorshift(seed), count as nat, n_rows),
        rows@.len() == count,
        forall|i: int| 0 <= i < rows@.len() ==> #[trigger] rows@[i] < n_rows,
        forall|k: int|
            0 <= k < count ==> #[trigger] rows@[k] == xorshift_draw(
                xorshift_state_after(seeded_xorshift(seed), k as nat, n_rows),
                n_rows,
            ),
{
    let mut rng = seed_xorshift(seed);
    let mut rows: Vec<usize> = Vec::new();
    let mut i: usize = 0;
    while i < count
        invariant
            0 <= i <= count,
            n_rows >= 1 || count == 0,
            rows@.len() == i,
            rows@ + xorshift_draws(rng, (count - i) as nat, n_rows) == xorshift_draws(
                seeded_xorshift(seed),
                count as nat,
                n_rows,
            ),
            forall|j: int| 0 <= j < rows@.len() ==> #[trigger] rows@[j] < n_rows,
            rng == xorshift_state_after(seeded_xorshift(seed), i as nat, n_rows),
            forall|j: int|
                0 <= j < rows@.len() ==> #[trigger] rows@[j] == xorshift_draw(
                    xorshift_state_after(seeded_xorshift(seed), j as nat, n_rows),
                    n_rows,
                ),
        decreases count - i,
    {
        let ghost before = rng;
        let index = xorshift_index(&mut rng, n_rows);
        proof {
            let rest = xorshift_draws(rng, (count - i - 1) as nat, n_rows);
            assert(xorshift_draws(before, (count - i) as nat, n_rows) == seq![index] + rest);
            assert(rows@.push(index) + rest =~= rows@ + (seq![index] + rest));
        }
        rows.push(index);
        i = i + 1;
    }
    proof {
        assert(rows@ + xorshift_draws(rng, 0, n_rows) =~= rows@);
    }
    rows
}

/// `count` row indices below `n_rows`, drawn from the thread-local
/// generator; which rows come out is left to chance.
pub fn random_rows(rng: &mut ThreadRng, count: usize, n_rows: usize) -> (rows: Vec<usize>)
    requires
        n_rows >= 1 || count == 0,
    ensures
        rows@.len() == count,
        forall|i: int| 0 <= i < rows@.len() ==> #[trigger] rows@[i] < n_rows,
{
    let mut rows: Vec<usize> = Vec::new();
    let mut i: usize = 0;
    while i < count
        invariant
            0 <= i <= count,
            n_rows >= 1 || count == 0,
            rows@.len() == i,
            forall|j: int| 0 <= j < rows@.len() ==> #[trigger] rows@[j] < n_rows,
        decreases count - i,
    {
        let index = thread_index(rng, n_rows);
        rows.push(index);
        i = i + 1;
    }
    rows
}

/// Drawing `count` indices gives `count` indices.
pub proof fn lemma_draws_len(rng: XorShiftRng, count: nat, bound: usize)
    ensures
        xorshift_draws(rng, count, bound).len() == count,
    decreases count,
{
    if count > 0 {
        lemma_draws_len(xorshift_after_draw(rng, bound), (count - 1) as nat, bound);
    }
}

} // verus!
