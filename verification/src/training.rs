use crate::bpe_tokenizer::{build_tokenizer, lemma_trained_state, lemma_trained_tokenizer, learned_from, train, trains_into, BpeTokenizer};
use vstd::prelude::*;
use vstd::string::StringSliceAdditionalSpecFns;

verus! {

/// Trains a byte-pair tokenizer on the text and builds its vocabulary.
pub fn build_bpe_tokenizer_from_text(training_text: &str, target_vocab_size: u32) -> (tokenizer: BpeTokenizer)
    requires
        training_text.spec_bytes().len() >= 2 || target_vocab_size <= 256,
        training_text.spec_bytes().len() <= u32::MAX,
    ensures
        tokenizer.wf(),
        learned_from(training_text.spec_bytes(), target_vocab_size, tokenizer),
        tokenizer.vocab.len() == 256 + tokenizer.merges@.dom().len(),
        256 <= tokenizer.vocab.len() <= if target_vocab_size <= 256 { 256 } else { target_vocab_size as int },
{
    let tokenizer_state = train(training_text, target_vocab_size);
    let ghost state = tokenizer_state;
    let tokenizer = build_tokenizer(tokenizer_state);
    assert(trains_into(training_text.spec_bytes(), target_vocab_size, state, tokenizer));
    proof {
        lemma_trained_tokenizer(training_text, target_vocab_size, state, tokenizer);
        lemma_trained_state(training_text.spec_bytes(), target_vocab_size, state);
    }
    tokenizer
}

/// How many trainable weights each part of the model has.
#[derive(Debug, PartialEq, Eq, Structural)]
pub struct ParameterCounts {
    pub embedding: usize,
    pub attention: usize,
    pub output: usize,
}

impl ParameterCounts {
    /// Sums the trainable parameters of all model layers.
    pub fn total(&self) -> (total: usize)
        requires
            self.embedding + self.attention + self.output <= usize::MAX,
        ensures
            total == self.embedding + self.attention + self.output,
    {
        self.embedding + self.attention + self.output
    }
}

/// `s` with each run of equal neighbours kept once.
pub open spec fn dedup(s: Seq<usize>) -> Seq<usize>
    decreases s.len(),
{
    if s.len() == 0 {
        Seq::empty()
    } else {
        let d = dedup(s.drop_last());
        if d.len() > 0 && d.last() == s.last() {
            d
        } else {
            d.push(s.last())
        }
    }
}

/// The epoch of snapshot `step` when `snapshot_count` snapshots are spread
/// evenly over `epochs` epochs from epoch 0.
pub open spec fn snapshot_epoch(epochs: usize, snapshot_count: usize, step: int) -> int {
    step * epochs / snapshot_count as int
}

/// The epochs of all snapshots, before equal neighbours are merged.
pub open spec fn snapshot_epochs(epochs: usize, snapshot_count: usize) -> Seq<usize> {
    Seq::new(snapshot_count as nat, |step: int| snapshot_epoch(epochs, snapshot_count, step) as usize)
}

/// Later snapshot steps never come at an earlier epoch, and every snapshot
/// comes before the last epoch ends.
pub proof fn lemma_snapshot_epoch_bounds(epochs: usize, snapshot_count: usize, i: int, j: int)
    requires
        snapshot_count > 0,
        0 <= i <= j < snapshot_count,
    ensures
        0 <= snapshot_epoch(epochs, snapshot_count, i) <= snapshot_epoch(epochs, snapshot_count, j),
        epochs > 0 ==> snapshot_epoch(epochs, snapshot_count, j) < epochs,
{
    let c = snapshot_count as int;
    let e = epochs as int;
    assert(0 <= i * e <= j * e) by (nonlinear_arith)
        requires
            0 <= i <= j,
            e >= 0,
    ;
    vstd::arithmetic::div_mod::lemma_div_is_ordered(i * e, j * e, c);
    vstd::arithmetic::div_mod::lemma_div_pos_is_pos(i * e, c);
    if e > 0 {
        assert(j * e < c * e) by (nonlinear_arith)
            requires
                0 <= j < c,
                e > 0,
        ;
        vstd::arithmetic::div_mod::lemma_div_by_multiple_is_strongly_ordered(j * e, c * e, e, c);
        assert(c * e == e * c) by (nonlinear_arith);
        vstd::arithmetic::div_mod::lemma_div_by_multiple(e, c);
    }
}

/// Keeping each run of equal neighbours once never makes a sequence longer,
/// and keeps its first element first.
pub proof fn lemma_dedup_shape(s: Seq<usize>)
    ensures
        dedup(s).len() <= s.len(),
        s.len() > 0 ==> dedup(s).len() > 0 && dedup(s)[0] == s[0],
    decreases s.len(),
{
    if s.len() > 0 {
        lemma_dedup_shape(s.drop_last());
        if s.len() == 1 {
            assert(s.drop_last() =~= Seq::<usize>::empty());
        } else {
            assert(s.drop_last()[0] == s[0]);
        }
    }
}

/// In a strictly increasing sequence of naturals each entry is at least its
/// position.
pub proof fn lemma_increasing_at_least_position(s: Seq<usize>, i: int)
    requires
        forall|a: int, b: int| 0 <= a < b < s.len() ==> #[trigger] s[a] < #[trigger] s[b],
        0 <= i < s.len(),
    ensures
        s[i] >= i,
    decreases i,
{
    if i > 0 {
        lemma_increasing_at_least_position(s, i - 1);
        assert(s[i - 1] < s[i]);
    }
}

/// Chooses the epochs at which snapshots are taken, spread evenly from
/// epoch 0; equal epochs are taken once.
///
/// The state after the last epoch is recorded separately, so it is not part
/// of the schedule.
pub fn snapshot_schedule(epochs: usize, snapshot_count: usize) -> (schedule: Vec<usize>)
    requires
        snapshot_count > 0 ==> (snapshot_count - 1) * epochs <= usize::MAX,
    ensures
        snapshot_count == 0 || epochs == 0 ==> schedule@ == Seq::<usize>::empty(),
        snapshot_count > 0 && epochs > 0 ==> schedule@ == dedup(snapshot_epochs(epochs, snapshot_count)),
        forall|i: int, j: int| 0 <= i < j < schedule.len() ==> #[trigger] schedule[i] < #[trigger] schedule[j],
        forall|i: int| 0 <= i < schedule.len() ==> #[trigger] schedule[i] < epochs,
        snapshot_count > 0 && epochs > 0 ==> schedule.len() > 0 && schedule[0] == 0,
        schedule.len() <= snapshot_count,
        schedule.len() <= epochs,
{
    let mut schedule: Vec<usize> = Vec::new();
    if snapshot_count == 0 || epochs == 0 {
        return schedule;
    }
    let ghost all = snapshot_epochs(epochs, snapshot_count);
    for step in 0..snapshot_count
        invariant
            snapshot_count > 0,
            epochs > 0,
            (snapshot_count - 1) * epochs <= usize::MAX,
            all == snapshot_epochs(epochs, snapshot_count),
            schedule@ == dedup(all.take(step as int)),
            forall|i: int, j: int| 0 <= i < j < schedule.len() ==> #[trigger] schedule[i] < #[trigger] schedule[j],
            forall|i: int| 0 <= i < schedule.len() ==> #[trigger] schedule[i] < epochs,
            step > 0 ==> schedule.len() > 0 && schedule[schedule.len() - 1] == all[step - 1],
    {
        assert(step * epochs <= (snapshot_count - 1) * epochs) by (nonlinear_arith)
            requires
                step < snapshot_count,
        ;
        let epoch = step * epochs / snapshot_count;
        proof {
            lemma_snapshot_epoch_bounds(epochs, snapshot_count, step as int, step as int);
            if step > 0 {
                lemma_snapshot_epoch_bounds(epochs, snapshot_count, step - 1, step as int);
            }
            assert(all.take(step + 1).drop_last() =~= all.take(step as int));
            assert(all[step as int] == epoch);
        }
        let n = schedule.len();
        if n == 0 || schedule[n - 1] != epoch {
            schedule.push(epoch);
        }
    }
    assert(all.take(snapshot_count as int) =~= all);
    proof {
        lemma_dedup_shape(all);
        assert(all[0] == 0);
        if schedule.len() > 0 {
            lemma_increasing_at_least_position(schedule@, schedule.len() - 1);
        }
    }
    schedule
}

} // verus!
