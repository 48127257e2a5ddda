//! The integer side of training: the train/validation split, which steps
//! evaluate, and the sampling of next-token training windows.
use rand::Rng;
use vstd::prelude::*;

verus! {

#[verifier::external_type_specification]
#[verifier::external_body]
pub struct ExThreadRng(rand::rngs::ThreadRng);

/// `rand::thread_rng`: the thread-local generator, seeded by the system.
/// Nothing is claimed of its state.
#[verifier::external_body]
fn thread_rng() -> rand::rngs::ThreadRng {
    rand::thread_rng()
}

/// `Rng::gen_range(0..upper)`: a random index below `upper`. Only its range
/// is claimed; which index comes out depends on the generator. The range must
/// not be empty (the call panics on an empty range).
#[verifier::external_body]
fn random_index_below(rng: &mut rand::rngs::ThreadRng, upper: usize) -> (i: usize)
    requires
        upper > 0,
    ensures
        i < upper,
{
    rng.gen_range(0..upper)
}

/// Where a corpus of `n` tokens is cut: the first nine tenths (rounded down)
/// are for training, the rest for validation.
pub fn train_split_point(n: usize) -> (m: usize)
    ensures
        m == n * 9 / 10,
        m <= n,
{
    let q = n / 10;
    let r = n % 10;
    proof {
        lemma_nine_tenths(n as int, q as int, r as int);
    }
    q * 9 + r * 9 / 10
}

proof fn lemma_nine_tenths(n: int, q: int, r: int)
    requires
        0 <= n,
        q == n / 10,
        r == n % 10,
    ensures
        q * 9 + r * 9 / 10 == n * 9 / 10,
        q * 9 + r * 9 / 10 <= n,
{
    assert(n == 10 * q + r && 0 <= r < 10) by (nonlinear_arith)
        requires
            q == n / 10,
            r == n % 10,
            0 <= n,
    ;
    assert(n * 9 == 10 * (9 * q) + 9 * r) by (nonlinear_arith)
        requires
            n == 10 * q + r,
    ;
    assert((10 * (9 * q) + 9 * r) / 10 == 9 * q + (9 * r) / 10) by (nonlinear_arith)
        requires
            0 <= r < 10,
            0 <= q,
    ;
}

/// What one training step does besides its update.
#[derive(Clone, Copy, Debug, PartialEq, Eq)]
pub struct StepPlan {
    /// Estimate the loss on both splits and print a log line.
    pub evaluate: bool,
    /// Read this step's loss back for the progress bar.
    pub refresh_loss: bool,
}

/// How often the displayed loss is read back.
pub const LOSS_REFRESH_INTERVAL: usize = 20;

/// Whether step `it` of a run of `max_iters` steps evaluates: every
/// `eval_interval` steps, and at the last step.
pub open spec fn evaluates_at(it: int, eval_interval: int, max_iters: int) -> bool {
    it % eval_interval == 0 || it + 1 == max_iters
}

/// The plan of step `it` of `max_iters`: evaluate every `eval_interval` steps
/// and at the last step; refresh the displayed loss every
/// `LOSS_REFRESH_INTERVAL` steps.
pub fn step_plan(it: usize, eval_interval: usize, max_iters: usize) -> (p: StepPlan)
    requires
        eval_interval > 0,
        it < max_iters,
    ensures
        p.evaluate == evaluates_at(it as int, eval_interval as int, max_iters as int),
        p.refresh_loss == (it % LOSS_REFRESH_INTERVAL == 0),
{
    StepPlan {
        evaluate: it % eval_interval == 0 || it == max_iters - 1,
        refresh_loss: it % LOSS_REFRESH_INTERVAL == 0,
    }
}

/// The first and the last step of a run evaluate, and every step has an
/// evaluating step at most `eval_interval - 1` steps before it (or itself).
pub proof fn lemma_evaluation_schedule(eval_interval: int, max_iters: int, it: int)
    requires
        eval_interval > 0,
        0 <= it < max_iters,
    ensures
        evaluates_at(0, eval_interval, max_iters),
        evaluates_at(max_iters - 1, eval_interval, max_iters),
        evaluates_at(it - it % eval_interval, eval_interval, max_iters),
        0 <= it % eval_interval < eval_interval,
{
    vstd::arithmetic::div_mod::lemma_mod_multiples_basic(it / eval_interval, eval_interval);
    vstd::arithmetic::div_mod::lemma_fundamental_div_mod(it, eval_interval);
    vstd::arithmetic::div_mod::lemma_mod_pos_bound(it, eval_interval);
    assert(it - it % eval_interval == (it / eval_interval) * eval_interval) by (nonlinear_arith)
        requires
            it == eval_interval * (it / eval_interval) + it % eval_interval,
    ;
}

/// A batch of `offsets.len()` windows of `block_size` tokens, flattened row
/// by row: row `b` of `inputs` is `data[offsets[b] .. offsets[b] + block_size]`
/// and row `b` of `targets` the same window one token later.
pub struct Batch {
    pub offsets: Vec<usize>,
    pub inputs: Vec<i64>,
    pub targets: Vec<i64>,
}

/// The batch holds the windows of `data` at its offsets.
pub open spec fn batch_windows_ok(data: Seq<i64>, block_size: nat, b: Batch) -> bool {
    &&& b.inputs@.len() == b.offsets@.len() * block_size
    &&& b.targets@.len() == b.offsets@.len() * block_size
    &&& forall|r: int| 0 <= r < b.offsets@.len() ==> #[trigger] b.offsets@[r] + block_size < data.len()
    &&& forall|r: int, t: int|
        0 <= r < b.offsets@.len() && 0 <= t < block_size ==> {
            &&& #[trigger] b.inputs@[r * block_size + t] == data[b.offsets@[r] + t]
            &&& b.targets@[r * block_size + t] == data[b.offsets@[r] + t + 1]
        }
}

proof fn lemma_row_index(r: int, t: int, rows: int, width: int)
    requires
        0 <= r < rows,
        0 <= t < width,
    ensures
        0 <= r * width + t < rows * width,
        r * width + t < (r + 1) * width,
        r * width <= r * width + t,
{
    assert(0 <= r * width + t < rows * width) by (nonlinear_arith)
        requires
            0 <= r < rows,
            0 <= t < width,
    ;
    assert((r + 1) * width == r * width + width) by (nonlinear_arith);
}

/// Cuts the input and target windows of `block_size` tokens at `offsets`.
pub fn windows_at(data: &[i64], offsets: Vec<usize>, block_size: usize) -> (b: Batch)
    requires
        forall|r: int| 0 <= r < offsets@.len() ==> #[trigger] offsets@[r] + block_size < data@.len(),
        offsets@.len() * block_size <= usize::MAX,
    ensures
        b.offsets@ == offsets@,
        batch_windows_ok(data@, block_size as nat, b),
{
    let rows = offsets.len();
    let n = data.len();
    let mut inputs: Vec<i64> = Vec::new();
    let mut targets: Vec<i64> = Vec::new();
    assert(0 * block_size == 0);
    for r in 0..rows
        invariant
            rows == offsets@.len(),
            n == data@.len(),
            rows * block_size <= usize::MAX,
            forall|q: int| 0 <= q < rows ==> #[trigger] offsets@[q] + block_size < data@.len(),
            inputs@.len() == r * block_size,
            targets@.len() == r * block_size,
            forall|q: int, t: int|
                0 <= q < r && 0 <= t < block_size ==> {
                    &&& #[trigger] inputs@[q * block_size + t] == data@[offsets@[q] + t]
                    &&& targets@[q * block_size + t] == data@[offsets@[q] + t + 1]
                },
    {
        let start = offsets[r];
        assert(start + block_size < data@.len());
        assert((r + 1) * block_size == r * block_size + block_size) by (nonlinear_arith);
        assert((r + 1) * block_size <= rows * block_size) by (nonlinear_arith)
            requires
                r < rows,
        ;
        let ghost in0 = inputs@;
        let ghost tg0 = targets@;
        assert(forall|q: int, t: int|
            0 <= q < r && 0 <= t < block_size ==> {
                &&& #[trigger] in0[q * block_size + t] == data@[offsets@[q] + t]
                &&& tg0[q * block_size + t] == data@[offsets@[q] + t + 1]
            });
        let mut t: usize = 0;
        while t < block_size
            invariant
                0 <= t <= block_size,
                n == data@.len(),
                start == offsets@[r as int],
                start + block_size < data@.len(),
                r < rows,
                (r + 1) * block_size <= usize::MAX,
                in0.len() == r * block_size,
                inputs@.len() == r * block_size + t,
                targets@.len() == r * block_size + t,
                inputs@.take(in0.len() as int) == in0,
                targets@.take(in0.len() as int) == tg0,
                forall|u: int|
                    0 <= u < t ==> {
                        &&& #[trigger] inputs@[r * block_size + u] == data@[start + u]
                        &&& targets@[r * block_size + u] == data@[start + u + 1]
                    },
            decreases block_size - t,
        {
            let at = start + t;
            inputs.push(data[at]);
            targets.push(data[at + 1]);
            t = t + 1;
        }
        assert forall|q: int, t: int| 0 <= q < r + 1 && 0 <= t < block_size implies {
            &&& #[trigger] inputs@[q * block_size + t] == data@[offsets@[q] + t]
            &&& targets@[q * block_size + t] == data@[offsets@[q] + t + 1]
        } by {
            lemma_row_index(q, t, r + 1, block_size as int);
            if q < r {
                lemma_row_index(q, t, r as int, block_size as int);
                assert(inputs@[q * block_size + t] == inputs@.take(in0.len() as int)[q * block_size + t]);
                assert(targets@[q * block_size + t] == targets@.take(in0.len() as int)[q * block_size + t]);
                assert(in0[q * block_size + t] == data@[offsets@[q] + t]);
                assert(tg0[q * block_size + t] == data@[offsets@[q] + t + 1]);
            } else {
                assert(q == r);
                assert(inputs@[r * block_size + t] == data@[start + t]);
            }
        }
    }
    proof {
        let w = block_size as nat;
        assert forall|q: int, t: int| 0 <= q < rows && 0 <= t < w implies {
            &&& #[trigger] inputs@[q * w + t] == data@[offsets@[q] + t]
            &&& targets@[q * w + t] == data@[offsets@[q] + t + 1]
        } by {
            assert(inputs@[q * block_size + t] == data@[offsets@[q] + t]);
        }
        assert(inputs@.len() == offsets@.len() * w);
        assert(targets@.len() == offsets@.len() * w);
        assert(forall|q: int| 0 <= q < offsets@.len() ==> #[trigger] offsets@[q] + w < data@.len());
    }
    Batch { offsets, inputs, targets }
}

/// Samples `batch_size` random windows of `block_size` tokens from `data`,
/// each with its next-token targets.
pub fn get_batch(data: &[i64], batch_size: usize, block_size: usize) -> (b: Batch)
    requires
        data@.len() > block_size,
        batch_size * block_size <= usize::MAX,
    ensures
        b.offsets@.len() == batch_size,
        batch_windows_ok(data@, block_size as nat, b),
{
    let mut rng = thread_rng();
    let upper = data.len() - block_size;
    let mut offsets: Vec<usize> = Vec::new();
    for _k in 0..batch_size
        invariant
            upper == data@.len() - block_size,
            upper > 0,
            offsets@.len() == _k,
            forall|q: int| 0 <= q < offsets@.len() ==> #[trigger] offsets@[q] < upper,
    {
        let i = random_index_below(&mut rng, upper);
        offsets.push(i);
    }
    windows_at(data, offsets, block_size)
}

/// Within each window, the target at a position is the input at the next
/// position: the model is trained to predict the next token.
pub proof fn lemma_targets_are_next_inputs(data: Seq<i64>, block_size: nat, b: Batch, r: int, t: int)
    requires
        batch_windows_ok(data, block_size, b),
        0 <= r < b.offsets@.len(),
        0 <= t,
        t + 1 < block_size,
    ensures
        b.targets@[r * block_size + t] == b.inputs@[r * block_size + (t + 1)],
{
    assert(b.inputs@[r * block_size + (t + 1)] == data[b.offsets@[r] + (t + 1)]);
    assert(b.inputs@[r * block_size + t] == data[b.offsets@[r] + t]);
}

} // verus!
