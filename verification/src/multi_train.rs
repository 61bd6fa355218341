use crate::bpe_tokenizer::{build_tokenizer, lemma_trained_state, lemma_trained_tokenizer, learned_from, train, BpeTokenizer};
use vstd::prelude::*;
use vstd::string::StringSliceAdditionalSpecFns;

verus! {

/// Trains a byte-pair tokenizer on the text and builds its vocabulary.
pub fn build_tokenizer_from_text(training_text: &str, target_vocab_size: u32) -> (tokenizer: BpeTokenizer)
    requires
        training_text.spec_bytes().len() >= 2 || target_vocab_size <= 256,
        training_text.spec_bytes().len() <= u32::MAX,
    ensures
        tokenizer.wf(),
        learned_from(training_text.spec_bytes(), target_vocab_size, tokenizer),
        tokenizer.vocab.len() == 256 + tokenizer.merges@.dom().len(),
        256 <= tokenizer.vocab.len() <= if target_vocab_size <= 256 { 256 } else { target_vocab_size as int },
{
    let tokenizer_state = train(training_text, target_vocab_size);
    let ghost state = tokenizer_state;
    let tokenizer = build_tokenizer(tokenizer_state);
    assert(crate::bpe_tokenizer::trains_into(training_text.spec_bytes(), target_vocab_size, state, tokenizer));
    tokenizer
}

/// How many trainable weights each part of the model has.
#[derive(Debug, PartialEq, Eq, Structural)]
pub struct ParameterCounts {
    pub embedding: usize,
    pub attention: usize,
    pub output: usize,
}

impl ParameterCounts {
    /// Sums the trainable parameters of all model layers.
    pub fn total(&self) -> (total: usize)
        requires
            self.embedding + self.attention + self.output <= usize::MAX,
        ensures
            total == self.embedding + self.attention + self.output,
    {
        self.embedding + self.attention + self.output
    }
}

/// Token `a` is ranked before token `b`: it has the higher key, or the same
/// key and the smaller id.
pub open spec fn ranks_before(order_keys: Seq<i32>, a: int, b: int) -> bool {
    order_keys[a] > order_keys[b] || (order_keys[a] == order_keys[b] && a < b)
}

/// The ids of the `limit` best-ranked tokens, best first, where token `t`
/// has order key `order_keys[t]` (a higher key ranks first, a smaller id
/// breaks ties).
pub fn top_token_ids(order_keys: &[i32], limit: usize) -> (ids: Vec<u32>)
    requires
        order_keys.len() <= u32::MAX,
    ensures
        ids.len() == if limit < order_keys.len() { limit } else { order_keys.len() as usize },
        forall|i: int| 0 <= i < ids.len() ==> #[trigger] ids[i] < order_keys.len(),
        forall|i: int, j: int|
            0 <= i < j < ids.len() ==> ranks_before(order_keys@, #[trigger] ids[i] as int, #[trigger] ids[j] as int),
        forall|i: int, t: int|
            #![trigger ranks_before(order_keys@, ids[i] as int, t)]
            0 <= i < ids.len() && 0 <= t < order_keys.len() && !ids@.contains(t as u32) ==> ranks_before(
                order_keys@,
                ids[i] as int,
                t,
            ),
{
    let n = order_keys.len();
    let count = if limit < n { limit } else { n };
    let mut taken: Vec<bool> = Vec::new();
    for t in 0..n
        invariant
            taken.len() == t,
            forall|u: int| 0 <= u < t ==> !#[trigger] taken[u],
    {
        taken.push(false);
    }
    let mut ids: Vec<u32> = Vec::new();
    for round in 0..count
        invariant
            n == order_keys.len(),
            n <= u32::MAX,
            count <= n,
            taken.len() == n,
            ids.len() == round,
            forall|i: int| 0 <= i < ids.len() ==> #[trigger] ids[i] < n,
            forall|u: int| 0 <= u < n ==> (#[trigger] taken[u] <==> ids@.contains(u as u32)),
            forall|i: int, j: int|
                0 <= i < j < ids.len() ==> ranks_before(order_keys@, #[trigger] ids[i] as int, #[trigger] ids[j] as int),
            forall|i: int, t: int|
                #![trigger ranks_before(order_keys@, ids[i] as int, t)]
                0 <= i < ids.len() && 0 <= t < n && !taken[t] ==> ranks_before(order_keys@, ids[i] as int, t),
    {
        // Some token is still free: the ids taken so far are fewer than n.
        proof {
            if forall|u: int| 0 <= u < n ==> #[trigger] taken[u] {
                let as_int = ids@.map_values(|x: u32| x as int);
                assert forall|u: int| #[trigger] vstd::set_lib::set_int_range(0, n as int).contains(u) implies as_int.to_set().contains(u) by {
                    assert(taken[u]);
                    assert(ids@.contains(u as u32));
                    let i = choose|i: int| 0 <= i < ids.len() && ids[i] == u as u32;
                    assert(as_int[i] == u);
                }
                vstd::set_lib::lemma_int_range(0, n as int);
                as_int.lemma_cardinality_of_set();
                vstd::set_lib::lemma_len_subset(vstd::set_lib::set_int_range(0, n as int), as_int.to_set());
                assert(false);
            }
        }
        let mut best: usize = n;
        for t in 0..n
            invariant
                n == order_keys.len(),
                taken.len() == n,
                best == n || (best < t && !taken[best as int]),
                best == n ==> forall|u: int| 0 <= u < t ==> #[trigger] taken[u],
                best < n ==> forall|u: int|
                    0 <= u < t && !#[trigger] taken[u] && u != best ==> ranks_before(order_keys@, best as int, u),
        {
            if !taken[t] && (best == n || order_keys[t] > order_keys[best]) {
                best = t;
            }
        }
        assert(best < n);
        let ghost before = ids@;
        taken.set(best, true);
        ids.push(best as u32);
        proof {
            assert forall|u: int| 0 <= u < n implies (#[trigger] taken[u] <==> ids@.contains(u as u32)) by {
                if ids@.contains(u as u32) {
                    let i = choose|i: int| 0 <= i < ids.len() && ids[i] == u as u32;
                    if i < before.len() {
                        assert(before.contains(u as u32));
                    }
                }
                if u != best && before.contains(u as u32) {
                    let i = choose|i: int| 0 <= i < before.len() && before[i] == u as u32;
                    assert(ids[i] == u as u32);
                }
                if u == best {
                    assert(ids[before.len() as int] == u as u32);
                }
            }
        }
    }
    ids
}

} // verus!
