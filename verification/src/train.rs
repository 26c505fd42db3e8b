//! What the trainer decides: whether there is enough data, how it is split, which windows of it
//! make up a batch, and when to report.
use rand::Rng;

use vstd::prelude::*;

use crate::config::Config;
use crate::number;

verus! {

/// The context length in characters.
pub const BLOCK_SIZE: usize = 128;

/// The width of an embedding.
pub const N_EMBD: usize = 128;

/// The number of attention heads.
pub const N_HEAD: usize = 4;

/// The number of transformer blocks.
pub const N_LAYER: usize = 4;

/// The number of windows in a batch.
pub const BATCH_SIZE: usize = 16;

/// The number of iterations.
pub const MAX_ITERS: usize = 3000;

/// How often the loss is reported, in iterations.
pub const EVAL_INTERVAL: usize = 300;

/// The hyperparameters of a model for `vocab_size` characters.
pub fn trained_config(vocab_size: usize) -> (config: Config)
    ensures
        config == (Config {
            vocab_size,
            n_embd: N_EMBD,
            n_head: N_HEAD,
            n_layer: N_LAYER,
            block_size: BLOCK_SIZE,
        }),
{
    Config { vocab_size, n_embd: N_EMBD, n_head: N_HEAD, n_layer: N_LAYER, block_size: BLOCK_SIZE }
}

// ---------------------------------------------------------------------------
// Data
// ---------------------------------------------------------------------------

/// Why there is nothing to train on.
#[derive(Clone, Copy, Debug, PartialEq, Eq, Structural)]
pub enum TrainError {
    /// The history holds no command that can be trained on.
    NoCommands,
    /// There are too few tokens; their number is given.
    NotEnoughData(usize),
}

impl TrainError {
    /// What is wrong, in words.
    pub fn message(&self) -> (m: String)
        ensures
            match *self {
                TrainError::NoCommands => m@
                    == "no commands in database — run cmd-record first"@,
                TrainError::NotEnoughData(n) => m@ == "not enough data ("@ + number::decimal(
                    n as nat,
                ) + " tokens); record more commands first"@,
            },
    {
        match self {
            TrainError::NoCommands => "no commands in database — run cmd-record first".to_owned(),
            TrainError::NotEnoughData(n) => {
                let mut m: String = "not enough data (".to_owned();
                m.push_str(number::to_decimal(*n as u64).as_str());
                m.push_str(" tokens); record more commands first");
                m
            },
        }
    }
}

/// Whether there are commands to train on.
pub fn check_commands(count: usize) -> (r: Result<(), TrainError>)
    ensures
        count > 0 ==> r == Ok::<(), TrainError>(()),
        count == 0 ==> r == Err::<(), TrainError>(TrainError::NoCommands),
{
    if count > 0 {
        Ok(())
    } else {
        Err(TrainError::NoCommands)
    }
}

/// The tokens in two parts.
pub struct Split<'a> {
    /// What the model is trained on.
    pub train: &'a [u32],
    /// What it is measured on.
    pub val: &'a [u32],
}

/// Where nine tenths of the tokens end.
pub open spec fn split_point(data: Seq<u32>) -> int {
    data.len() as int * 9 / 10
}

/// Splits the tokens: nine tenths to train on, the rest to measure on.
pub fn split_data<'a>(data: &'a [u32]) -> (r: Result<Split<'a>, TrainError>)
    ensures
        match r {
            Ok(split) => {
                &&& data@.len() > BLOCK_SIZE * 2 + 2
                &&& split.train@ == data@.take(split_point(data@))
                &&& split.val@ == data@.skip(split_point(data@))
                &&& split.train@.len() > BLOCK_SIZE + 1
                &&& split.train@ + split.val@ == data@
                &&& 10 * split.train@.len() <= 9 * data@.len() < 10 * split.train@.len() + 10
            },
            Err(e) => {
                &&& data@.len() <= BLOCK_SIZE * 2 + 2
                &&& e == TrainError::NotEnoughData(data@.len() as usize)
            },
        },
{
    let n: usize = data.len();
    if n <= BLOCK_SIZE * 2 + 2 {
        return Err(TrainError::NotEnoughData(n));
    }
    let at: usize = n / 10 * 9 + n % 10 * 9 / 10;
    assert(at == split_point(data@));
    let (train, val) = data.split_at(at);
    Ok(Split { train, val })
}

impl<'a> Split<'a> {
    /// Whether there is enough to measure on.
    pub fn can_eval(&self) -> (r: bool)
        ensures
            r == (self.val@.len() > BLOCK_SIZE + 1),
    {
        self.val.len() > BLOCK_SIZE + 1
    }
}

// ---------------------------------------------------------------------------
// Batches
// ---------------------------------------------------------------------------

/// Windows of the data, one after the other, and the same windows one token further on.
pub struct Batch {
    /// What the model sees.
    pub x: Vec<u32>,
    /// What it is to predict.
    pub y: Vec<u32>,
}

/// The windows of `len` tokens that begin `offset` tokens after each of `starts`, one after the
/// other.
pub open spec fn windows(data: Seq<u32>, starts: Seq<usize>, offset: int, len: int) -> Seq<u32>
    decreases starts.len(),
{
    if starts.len() == 0 {
        seq![]
    } else {
        windows(data, starts.drop_last(), offset, len) + data.subrange(
            starts.last() + offset,
            starts.last() + offset + len,
        )
    }
}

/// Whether `batch` holds the windows of `block_size` tokens at `starts`.
pub open spec fn holds_windows(
    batch: Batch,
    data: Seq<u32>,
    block_size: usize,
    starts: Seq<usize>,
) -> bool {
    &&& batch.x@ == windows(data, starts, 0, block_size as int)
    &&& batch.y@ == windows(data, starts, 1, block_size as int)
}

/// Whether `starts` are `batch_size` numbers less than `n`.
pub open spec fn are_starts(starts: Seq<usize>, batch_size: usize, n: int) -> bool {
    &&& starts.len() == batch_size
    &&& forall|i: int| 0 <= i < starts.len() ==> (#[trigger] starts[i]) < n
}

/// The batch of the windows of `block_size` tokens at `starts`.
pub fn batch_at(data: &[u32], block_size: usize, starts: &Vec<usize>) -> (batch: Batch)
    requires
        forall|i: int|
            0 <= i < starts@.len() ==> (#[trigger] starts@[i]) + block_size + 1 <= data@.len(),
    ensures
        holds_windows(batch, data@, block_size, starts@),
        batch.x@.len() == starts@.len() * block_size,
        batch.y@.len() == starts@.len() * block_size,
{
    let mut x: Vec<u32> = Vec::new();
    let mut y: Vec<u32> = Vec::new();
    for i in 0..starts.len()
        invariant
            forall|j: int|
                0 <= j < starts@.len() ==> (#[trigger] starts@[j]) + block_size + 1 <= data@.len(),
            x@ == windows(data@, starts@.take(i as int), 0, block_size as int),
            y@ == windows(data@, starts@.take(i as int), 1, block_size as int),
    {
        let s: usize = starts[i];
        let len: usize = data.len();
        let ghost now = starts@.take(i + 1);
        let ghost before = (x@, y@);
        assert(now.drop_last() == starts@.take(i as int));
        assert(now.last() == s);
        for k in 0..block_size
            invariant
                len == data@.len(),
                s + block_size + 1 <= len,
                x@ == before.0 + data@.subrange(s as int, s + k),
                y@ == before.1 + data@.subrange(s + 1, s + 1 + k),
        {
            x.push(data[s + k]);
            y.push(data[s + 1 + k]);
        }
        assert(x@ == windows(data@, now, 0, block_size as int));
        assert(y@ == windows(data@, now, 1, block_size as int));
    }
    assert(starts@.take(starts@.len() as int) == starts@);
    proof {
        lemma_windows_len(data@, starts@, 0, block_size as int);
        lemma_windows_len(data@, starts@, 1, block_size as int);
    }
    Batch { x, y }
}

/// The random number generator of a thread.
#[verifier::external_type_specification]
#[verifier::external_body]
pub struct ExThreadRng(rand::rngs::ThreadRng);

/// `rand::Rng::gen_range`, on the range `0..n`: some number less than `n`. Which number comes is
/// up to chance. It panics where the range is empty, and, whatever the range, where the generator
/// is due for a new seed and the operating system has none to give.
#[verifier::external_body]
fn gen_below(rng: &mut rand::rngs::ThreadRng, n: usize) -> (s: usize)
    requires
        n > 0,
    ensures
        s < n,
{
    rng.gen_range(0..n)
}

/// The number of places, from the first on, that a window of `block_size` tokens may begin at in
/// `len` tokens. The last token is never one to predict.
pub fn start_count(len: usize, block_size: usize) -> (n: usize)
    requires
        len >= block_size + 1,
    ensures
        n == len - block_size - 1,
{
    len - block_size - 1
}

/// A batch of `batch_size` windows of `block_size` tokens, at random places of the data.
pub fn get_batch(
    data: &[u32],
    block_size: usize,
    batch_size: usize,
    rng: &mut rand::rngs::ThreadRng,
) -> (batch: Batch)
    requires
        data@.len() >= block_size + 1,
        batch_size > 0 ==> data@.len() > block_size + 1,
    ensures
        exists|starts: Seq<usize>|
            are_starts(starts, batch_size, data@.len() - block_size - 1)
                && #[trigger] holds_windows(batch, data@, block_size, starts),
        batch.x@.len() == batch_size * block_size,
        batch.y@.len() == batch_size * block_size,
{
    let n: usize = start_count(data.len(), block_size);
    let mut starts: Vec<usize> = Vec::new();
    for i in 0..batch_size
        invariant
            batch_size > 0 ==> n > 0,
            starts@.len() == i,
            forall|j: int| 0 <= j < starts@.len() ==> (#[trigger] starts@[j]) < n,
    {
        let s: usize = gen_below(rng, n);
        starts.push(s);
    }
    let batch: Batch = batch_at(data, block_size, &starts);
    assert(holds_windows(batch, data@, block_size, starts@));
    batch
}

// ---------------------------------------------------------------------------
// Reports
// ---------------------------------------------------------------------------

/// What is reported after an iteration.
#[derive(Clone, Copy, Debug, PartialEq, Eq, Structural)]
pub enum Report {
    /// Nothing.
    Silent,
    /// The loss on the batch that the model was trained on.
    Train,
    /// That loss, and the loss on a batch to measure on.
    TrainAndVal,
}

/// What is reported after the iteration `iter`, counted from 1.
pub fn report_at(iter: usize, can_eval: bool) -> (r: Report)
    ensures
        r == if iter % EVAL_INTERVAL == 0 || iter == 1 {
            if can_eval {
                Report::TrainAndVal
            } else {
                Report::Train
            }
        } else {
            Report::Silent
        },
{
    if iter % EVAL_INTERVAL == 0 || iter == 1 {
        if can_eval {
            Report::TrainAndVal
        } else {
            Report::Train
        }
    } else {
        Report::Silent
    }
}

// ---------------------------------------------------------------------------
// What holds of every batch and every split
// ---------------------------------------------------------------------------

/// The windows stand one after the other, each `len` tokens long.
pub proof fn law_windows(data: Seq<u32>, starts: Seq<usize>, offset: int, len: int, j: int, k: int)
    requires
        0 <= offset,
        0 <= len,
        forall|i: int|
            0 <= i < starts.len() ==> (#[trigger] starts[i]) + offset + len <= data.len(),
        0 <= j < starts.len(),
        0 <= k < len,
    ensures
        windows(data, starts, offset, len).len() == starts.len() * len,
        0 <= j * len + k < starts.len() * len,
        windows(data, starts, offset, len)[j * len + k] == data[starts[j] + offset + k],
    decreases starts.len(),
{
    let before = starts.drop_last();
    assert(starts[starts.len() - 1] == starts.last());
    lemma_windows_len(data, starts, offset, len);
    lemma_windows_len(data, before, offset, len);
    let m = before.len() as int;
    assert(j * len + k < starts.len() * len) by (nonlinear_arith)
        requires
            j + 1 <= starts.len(),
            0 <= k < len,
    ;
    assert(0 <= j * len) by (nonlinear_arith)
        requires
            0 <= j,
            0 <= len,
    ;
    if j < m {
        assert forall|i: int| 0 <= i < before.len() implies (#[trigger] before[i]) + offset + len
            <= data.len() by {
            assert(before[i] == starts[i]);
        }
        law_windows(data, before, offset, len, j, k);
    }
}

/// How long the windows are together.
proof fn lemma_windows_len(data: Seq<u32>, starts: Seq<usize>, offset: int, len: int)
    requires
        0 <= offset,
        0 <= len,
        forall|i: int|
            0 <= i < starts.len() ==> (#[trigger] starts[i]) + offset + len <= data.len(),
    ensures
        windows(data, starts, offset, len).len() == starts.len() * len,
    decreases starts.len(),
{
    if starts.len() == 0 {
        assert(starts.len() * len == 0) by (nonlinear_arith)
            requires
                starts.len() == 0,
        ;
    } else {
        let before = starts.drop_last();
        assert forall|i: int| 0 <= i < before.len() implies (#[trigger] before[i]) + offset + len
            <= data.len() by {
            assert(before[i] == starts[i]);
        }
        lemma_windows_len(data, before, offset, len);
        assert(starts[starts.len() - 1] == starts.last());
        assert(before.len() * len + len == starts.len() * len) by (nonlinear_arith)
            requires
                before.len() + 1 == starts.len(),
        ;
    }
}

/// What the model is to predict at a position of a batch is the token that follows, in the data,
/// on the one it sees there.
pub proof fn law_targets_follow_inputs(
    batch: Batch,
    data: Seq<u32>,
    block_size: usize,
    starts: Seq<usize>,
    j: int,
    k: int,
)
    requires
        forall|i: int|
            0 <= i < starts.len() ==> (#[trigger] starts[i]) + block_size + 1 <= data.len(),
        holds_windows(batch, data, block_size, starts),
        0 <= j < starts.len(),
        0 <= k < block_size,
    ensures
        batch.x@.len() == starts.len() * block_size,
        batch.y@.len() == starts.len() * block_size,
        0 <= j * block_size + k < batch.x@.len(),
        batch.x@[j * block_size + k] == data[starts[j] + k],
        batch.y@[j * block_size + k] == data[starts[j] + k + 1],
        k + 1 < block_size ==> batch.y@[j * block_size + k] == batch.x@[j * block_size + k + 1],
{
    let len = block_size as int;
    law_windows(data, starts, 0, len, j, k);
    law_windows(data, starts, 1, len, j, k);
    if k + 1 < block_size {
        law_windows(data, starts, 0, len, j, k + 1);
    }
}

/// The part to train on is nine tenths of the data, rounded down, and the part to measure on is
/// the rest, however much data there is.
pub proof fn law_split_is_nine_tenths(data: Seq<u32>, train: Seq<u32>, val: Seq<u32>)
    requires
        train == data.take(split_point(data)),
        val == data.skip(split_point(data)),
    ensures
        train + val == data,
        10 * train.len() <= 9 * data.len() < 10 * train.len() + 10,
        data.len() <= 10 * val.len() < data.len() + 10,
{
}

/// The two parts of a split are the whole of the data, and a batch can always be drawn from the
/// part to train on.
pub proof fn law_split_keeps_all_data(data: Seq<u32>)
    requires
        data.len() > BLOCK_SIZE * 2 + 2,
    ensures
        data.take(split_point(data)) + data.skip(split_point(data)) == data,
        data.take(split_point(data)).len() > BLOCK_SIZE + 1,
{
}

/// A batch that holds the windows at some places holds, window by window, what the data hold from
/// each place on, and no more; its targets are the same, one token further on.
pub proof fn law_batch_window_by_window(
    batch: Batch,
    data: Seq<u32>,
    block_size: usize,
    starts: Seq<usize>,
    j: int,
)
    requires
        forall|i: int|
            0 <= i < starts.len() ==> (#[trigger] starts[i]) + block_size + 1 <= data.len(),
        holds_windows(batch, data, block_size, starts),
        0 <= j < starts.len(),
    ensures
        batch.x@.len() == starts.len() * block_size,
        batch.y@.len() == starts.len() * block_size,
        0 <= j * block_size <= (j + 1) * block_size <= batch.x@.len(),
        batch.x@.subrange(j * block_size, (j + 1) * block_size) == data.subrange(
            starts[j] as int,
            starts[j] + block_size,
        ),
        batch.y@.subrange(j * block_size, (j + 1) * block_size) == data.subrange(
            starts[j] + 1,
            starts[j] + 1 + block_size,
        ),
{
    let len = block_size as int;
    lemma_windows_len(data, starts, 0, len);
    lemma_windows_len(data, starts, 1, len);
    let lo = j * len;
    assert((j + 1) * len == lo + len) by (nonlinear_arith)
        requires
            lo == j * len,
    ;
    assert(0 <= lo && (j + 1) * len <= starts.len() * len) by (nonlinear_arith)
        requires
            0 <= j,
            j + 1 <= starts.len(),
            0 <= len,
            lo == j * len,
    ;
    let s = starts[j] as int;
    let seen = batch.x@.subrange(lo, lo + len);
    let targets = batch.y@.subrange(lo, lo + len);
    assert forall|k: int| 0 <= k < len implies #[trigger] seen[k] == data.subrange(s, s + len)[k] by {
        law_windows(data, starts, 0, len, j, k);
    }
    assert forall|k: int| 0 <= k < len implies #[trigger] targets[k] == data.subrange(
        s + 1,
        s + 1 + len,
    )[k] by {
        law_windows(data, starts, 1, len, j, k);
    }
    assert(seen == data.subrange(s, s + len));
    assert(targets == data.subrange(s + 1, s + 1 + len));
}

/// The places that the windows of a batch begin at: as many as were asked for, each below the
/// bound.
pub proof fn law_starts(starts: Seq<usize>, batch_size: usize, n: int, i: int)
    requires
        are_starts(starts, batch_size, n),
    ensures
        starts.len() == batch_size,
        0 <= i < starts.len() ==> starts[i] < n,
{
}

/// The hyperparameters: the heads share the width of an embedding evenly, and the last iteration
/// is one that is reported.
pub proof fn law_hyperparameters()
    ensures
        BLOCK_SIZE == 128,
        N_EMBD == 128,
        N_HEAD == 4,
        N_LAYER == 4,
        BATCH_SIZE == 16,
        MAX_ITERS == 3000,
        EVAL_INTERVAL == 300,
        N_EMBD % N_HEAD == 0,
        MAX_ITERS % EVAL_INTERVAL == 0,
{
}

} // verus!
