use crate::pair_table::PairTable;
use crate::text::{from_utf8_lossy, utf8_lossy};
use crate::tokenizer::Tokenizer;
use vstd::utf8::{decode_utf8, valid_utf8};
use vstd::prelude::*;
use vstd::string::StringSliceAdditionalSpecFns;

verus! {

// ---------------------------------------------------------------------------
// The model: sequences of token ids and what they spell
// ---------------------------------------------------------------------------

/// `s` with every non-overlapping occurrence of `pair`, read from left to
/// right, replaced by `new_id`.
pub open spec fn merge_pair(s: Seq<u32>, pair: (u32, u32), new_id: u32) -> Seq<u32>
    decreases s.len(),
{
    if s.len() < 2 {
        s
    } else if s[0] == pair.0 && s[1] == pair.1 {
        seq![new_id] + merge_pair(s.skip(2), pair, new_id)
    } else {
        seq![s[0]] + merge_pair(s.skip(1), pair, new_id)
    }
}

/// The bytes that token `id` stands for: its vocabulary entry, or nothing
/// for an id outside the vocabulary.
pub open spec fn piece(vocab: Seq<Seq<u8>>, id: u32) -> Seq<u8> {
    if id < vocab.len() {
        vocab[id as int]
    } else {
        Seq::empty()
    }
}

/// The bytes that a sequence of token ids spells out.
pub open spec fn spell(vocab: Seq<Seq<u8>>, ids: Seq<u32>) -> Seq<u8>
    decreases ids.len(),
{
    if ids.len() == 0 {
        Seq::empty()
    } else {
        spell(vocab, ids.drop_last()) + piece(vocab, ids.last())
    }
}

/// Spelling a concatenation spells each part in turn.
pub proof fn lemma_spell_concat(vocab: Seq<Seq<u8>>, a: Seq<u32>, b: Seq<u32>)
    ensures
        spell(vocab, a + b) == spell(vocab, a) + spell(vocab, b),
    decreases b.len(),
{
    if b.len() == 0 {
        assert(a + b =~= a);
        assert(spell(vocab, a) + spell(vocab, b) =~= spell(vocab, a));
    } else {
        lemma_spell_concat(vocab, a, b.drop_last());
        assert((a + b).drop_last() =~= a + b.drop_last());
        assert((a + b).last() == b.last());
        assert(spell(vocab, a + b) =~= spell(vocab, a) + spell(vocab, b));
    }
}

/// The spelling of a single id is its piece.
pub proof fn lemma_spell_one(vocab: Seq<Seq<u8>>, id: u32)
    ensures
        spell(vocab, seq![id]) == piece(vocab, id),
{
    assert(seq![id].drop_last() =~= Seq::<u32>::empty());
    assert(spell(vocab, Seq::<u32>::empty()) + piece(vocab, id) =~= piece(vocab, id));
}

/// Merging a pair whose new id spells exactly what the pair spelled leaves
/// the spelling unchanged.
pub proof fn lemma_merge_pair_spell(vocab: Seq<Seq<u8>>, s: Seq<u32>, pair: (u32, u32), new_id: u32)
    requires
        piece(vocab, new_id) == piece(vocab, pair.0) + piece(vocab, pair.1),
    ensures
        spell(vocab, merge_pair(s, pair, new_id)) == spell(vocab, s),
    decreases s.len(),
{
    if s.len() < 2 {
    } else if s[0] == pair.0 && s[1] == pair.1 {
        lemma_merge_pair_spell(vocab, s.skip(2), pair, new_id);
        lemma_spell_concat(vocab, seq![new_id], merge_pair(s.skip(2), pair, new_id));
        lemma_spell_one(vocab, new_id);
        assert(s =~= seq![s[0], s[1]] + s.skip(2));
        lemma_spell_concat(vocab, seq![s[0], s[1]], s.skip(2));
        assert(seq![s[0], s[1]] =~= seq![s[0]] + seq![s[1]]);
        lemma_spell_concat(vocab, seq![s[0]], seq![s[1]]);
        lemma_spell_one(vocab, s[0]);
        lemma_spell_one(vocab, s[1]);
        assert(spell(vocab, merge_pair(s, pair, new_id)) =~= spell(vocab, s));
    } else {
        lemma_merge_pair_spell(vocab, s.skip(1), pair, new_id);
        lemma_spell_concat(vocab, seq![s[0]], merge_pair(s.skip(1), pair, new_id));
        assert(s =~= seq![s[0]] + s.skip(1));
        lemma_spell_concat(vocab, seq![s[0]], s.skip(1));
    }
}

/// Each id of the merged sequence stands for at most two ids of the
/// original, so the merge keeps at least half of the length.
pub proof fn lemma_merge_pair_len(s: Seq<u32>, pair: (u32, u32), new_id: u32)
    ensures
        2 * merge_pair(s, pair, new_id).len() >= s.len(),
        merge_pair(s, pair, new_id).len() <= s.len(),
    decreases s.len(),
{
    if s.len() < 2 {
    } else if s[0] == pair.0 && s[1] == pair.1 {
        lemma_merge_pair_len(s.skip(2), pair, new_id);
    } else {
        lemma_merge_pair_len(s.skip(1), pair, new_id);
    }
}

/// Merging a pair that occurs somewhere makes the sequence shorter.
pub proof fn lemma_merge_pair_shortens(s: Seq<u32>, pair: (u32, u32), new_id: u32, i: int)
    requires
        0 <= i < s.len() - 1,
        s[i] == pair.0,
        s[i + 1] == pair.1,
    ensures
        merge_pair(s, pair, new_id).len() < s.len(),
    decreases s.len(),
{
    if s[0] == pair.0 && s[1] == pair.1 {
        lemma_merge_pair_len(s.skip(2), pair, new_id);
    } else {
        assert(i >= 1);
        assert(s.skip(1)[i - 1] == s[i]);
        assert(s.skip(1)[i] == s[i + 1]);
        lemma_merge_pair_shortens(s.skip(1), pair, new_id, i - 1);
    }
}

/// `s` with every `new_id` expanded back into the pair it stands for.
pub open spec fn expand_pair(s: Seq<u32>, pair: (u32, u32), new_id: u32) -> Seq<u32>
    decreases s.len(),
{
    if s.len() == 0 {
        Seq::empty()
    } else {
        (if s[0] == new_id {
            seq![pair.0, pair.1]
        } else {
            seq![s[0]]
        }) + expand_pair(s.skip(1), pair, new_id)
    }
}

/// How often `id` occurs in `s`.
pub open spec fn id_count(s: Seq<u32>, id: u32) -> nat
    decreases s.len(),
{
    if s.len() == 0 {
        0
    } else {
        (if s[0] == id {
            1nat
        } else {
            0nat
        }) + id_count(s.skip(1), id)
    }
}

/// When `s` does not hold the new id, merging a pair can be undone:
/// expanding the new id gives back `s`, the sequence got shorter by one for
/// each new id, and a pair that does not occur leaves `s` as it is.
pub proof fn lemma_merge_pair_expand(s: Seq<u32>, pair: (u32, u32), new_id: u32)
    requires
        !s.contains(new_id),
    ensures
        expand_pair(merge_pair(s, pair, new_id), pair, new_id) == s,
        merge_pair(s, pair, new_id).len() + id_count(merge_pair(s, pair, new_id), new_id) == s.len(),
        (forall|i: int| 0 <= i < s.len() - 1 ==> #[trigger] pair_at(s, i) != pair) ==> merge_pair(s, pair, new_id) == s,
    decreases s.len(),
{
    let r = merge_pair(s, pair, new_id);
    if s.len() == 0 {
    } else if s.len() == 1 {
        assert(s[0] != new_id) by {
            if s[0] == new_id {
                assert(s.contains(new_id));
            }
        }
        let empty = Seq::<u32>::empty();
        assert(s.skip(1) =~= empty);
        assert(expand_pair(empty, pair, new_id) == empty);
        assert(id_count(empty, new_id) == 0);
        assert(expand_pair(s, pair, new_id) =~= s);
        assert(id_count(s, new_id) == 0);
    } else if s[0] == pair.0 && s[1] == pair.1 {
        let t = s.skip(2);
        assert(!t.contains(new_id)) by {
            if t.contains(new_id) {
                let k = choose|k: int| 0 <= k < t.len() && t[k] == new_id;
                assert(s[k + 2] == new_id);
            }
        }
        lemma_merge_pair_expand(t, pair, new_id);
        let rt = merge_pair(t, pair, new_id);
        assert(r.skip(1) =~= rt);
        assert(expand_pair(r, pair, new_id) =~= seq![pair.0, pair.1] + t);
        assert(s =~= seq![pair.0, pair.1] + t);
        assert(pair_at(s, 0) == pair);
    } else {
        let t = s.skip(1);
        assert(!t.contains(new_id)) by {
            if t.contains(new_id) {
                let k = choose|k: int| 0 <= k < t.len() && t[k] == new_id;
                assert(s[k + 1] == new_id);
            }
        }
        assert(s[0] != new_id) by {
            if s[0] == new_id {
                assert(s.contains(new_id));
            }
        }
        lemma_merge_pair_expand(t, pair, new_id);
        let rt = merge_pair(t, pair, new_id);
        assert(r.skip(1) =~= rt);
        assert(expand_pair(r, pair, new_id) =~= seq![s[0]] + t);
        assert(s =~= seq![s[0]] + t);
        if forall|i: int| 0 <= i < s.len() - 1 ==> #[trigger] pair_at(s, i) != pair {
            assert forall|i: int| 0 <= i < t.len() - 1 implies #[trigger] pair_at(t, i) != pair by {
                assert(pair_at(t, i) == pair_at(s, i + 1));
            }
            assert(r =~= s);
        }
    }
}

// ---------------------------------------------------------------------------
// Encoding: applying learned merges by priority
// ---------------------------------------------------------------------------

/// The adjacent pair of `s` starting at position `i`.
pub open spec fn pair_at(s: Seq<u32>, i: int) -> (u32, u32) {
    (s[i], s[i + 1])
}

/// Among the adjacent pairs starting before position `k`, the merge rule
/// with the smallest id below `u32::MAX` (the first such pair from the left
/// on a tie), with that id.
pub open spec fn best_upto(merges: Map<(u32, u32), u32>, s: Seq<u32>, k: int) -> Option<((u32, u32), u32)>
    decreases k,
{
    if k <= 0 {
        None
    } else {
        let prev = best_upto(merges, s, k - 1);
        let p = pair_at(s, k - 1);
        let bound = match prev {
            Some(b) => b.1,
            None => u32::MAX,
        };
        if merges.contains_key(p) && merges[p] < bound {
            Some((p, merges[p]))
        } else {
            prev
        }
    }
}

/// The merge rule that encoding applies next to `s`: the adjacent pair with
/// the smallest merge id (leftmost on a tie), if any pair has a rule.
pub open spec fn best_pair(merges: Map<(u32, u32), u32>, s: Seq<u32>) -> Option<((u32, u32), u32)> {
    if s.len() < 2 {
        None
    } else {
        best_upto(merges, s, s.len() - 1)
    }
}

/// What `best_upto` picks: a pair that occurs before `k`, whose rule has
/// the smallest id among the pairs there; and when it picks nothing, no pair
/// there has a rule with an id below `u32::MAX`.
pub proof fn lemma_best_upto(merges: Map<(u32, u32), u32>, s: Seq<u32>, k: int)
    requires
        k <= s.len() - 1,
    ensures
        match best_upto(merges, s, k) {
            Some(b) => {
                &&& exists|i: int| 0 <= i < k && #[trigger] pair_at(s, i) == b.0
                &&& merges.contains_key(b.0)
                &&& merges[b.0] == b.1
                &&& b.1 < u32::MAX
                &&& forall|i: int|
                    0 <= i < k && merges.contains_key(#[trigger] pair_at(s, i)) ==> b.1 <= merges[pair_at(s, i)]
            },
            None => forall|i: int|
                0 <= i < k && merges.contains_key(#[trigger] pair_at(s, i)) ==> merges[pair_at(s, i)] == u32::MAX,
        },
    decreases k,
{
    if k > 0 {
        lemma_best_upto(merges, s, k - 1);
        let p = pair_at(s, k - 1);
        match best_upto(merges, s, k - 1) {
            Some(b) => {
                if merges.contains_key(p) && merges[p] < b.1 {
                    assert(pair_at(s, k - 1) == p);
                }
            },
            None => {
                if merges.contains_key(p) && merges[p] < u32::MAX {
                    assert(pair_at(s, k - 1) == p);
                }
            },
        }
    }
}

/// When encoding has a pair to merge, merging it makes the sequence shorter.
pub proof fn lemma_best_pair_shortens(merges: Map<(u32, u32), u32>, s: Seq<u32>)
    requires
        best_pair(merges, s) is Some,
    ensures
        ({
            let b = best_pair(merges, s)->0;
            merge_pair(s, b.0, b.1).len() < s.len()
        }),
{
    lemma_best_upto(merges, s, s.len() - 1);
    let b = best_pair(merges, s)->0;
    let i = choose|i: int| 0 <= i < s.len() - 1 && #[trigger] pair_at(s, i) == b.0;
    lemma_merge_pair_shortens(s, b.0, b.1, i);
}

/// Applies merge rules to `s` by priority until no adjacent pair has a rule
/// that can be applied.
pub open spec fn merge_all(merges: Map<(u32, u32), u32>, s: Seq<u32>) -> Seq<u32>
    decreases s.len(),
{
    match best_pair(merges, s) {
        None => s,
        Some(b) => {
            proof {
                lemma_best_pair_shortens(merges, s);
            }
            merge_all(merges, merge_pair(s, b.0, b.1))
        },
    }
}

/// The token ids of a byte string: one id per byte, equal to the byte.
pub open spec fn byte_ids(bytes: Seq<u8>) -> Seq<u32> {
    bytes.map_values(|b: u8| b as u32)
}

/// Represents text as one token id per UTF-8 byte.
pub fn tokenize_text(text: &str) -> (ids: Vec<u32>)
    ensures
        ids@ == byte_ids(text.spec_bytes()),
{
    let bytes = text.as_bytes();
    let mut ids: Vec<u32> = Vec::with_capacity(bytes.len());
    for i in 0..bytes.len()
        invariant
            bytes@ == text.spec_bytes(),
            ids@ == byte_ids(bytes@.take(i as int)),
    {
        ids.push(bytes[i] as u32);
        assert(byte_ids(bytes@.take(i + 1)) =~= byte_ids(bytes@.take(i as int)).push(bytes@[i as int] as u32));
    }
    assert(bytes@.take(bytes.len() as int) =~= bytes@);
    ids
}

/// Replaces the non-overlapping occurrences of a token pair in place.
pub fn merge_ids(data: &mut Vec<u32>, left_id: &u32, right_id: &u32, new_id: u32)
    ensures
        final(data)@ == merge_pair(old(data)@, (*left_id, *right_id), new_id),
        !old(data)@.contains(new_id) ==> expand_pair(final(data)@, (*left_id, *right_id), new_id) == old(data)@
            && final(data)@.len() + id_count(final(data)@, new_id) == old(data)@.len(),
{
    let ghost pair = (*left_id, *right_id);
    let ghost orig = data@;
    if data.len() == 0 {
        proof {
            lemma_merge_pair_expand(orig, pair, new_id);
        }
        return;
    }
    let n = data.len();
    let mut write_index: usize = 0;
    let mut merged_with_prev = false;
    assert(orig.skip(0) =~= orig);
    assert(data@.take(0) + merge_pair(orig, pair, new_id) =~= merge_pair(orig, pair, new_id));
    // Read forward and write the compressed result back into the same buffer.
    for read_index in 0..n
        invariant
            n == orig.len(),
            pair == (*left_id, *right_id),
            data.len() == n,
            write_index <= read_index,
            merged_with_prev ==> read_index < n && write_index >= 1,
            forall|j: int|
                (if merged_with_prev { read_index + 1 } else { read_index as int }) <= j < n
                    ==> #[trigger] data@[j] == orig[j],
            data@.take(write_index as int) + merge_pair(
                orig.skip(if merged_with_prev { read_index + 1 } else { read_index as int }),
                pair,
                new_id,
            ) == merge_pair(orig, pair, new_id),
    {
        let ghost k = read_index as int;
        let mut merged_token: Option<u32> = None;
        if !merged_with_prev && read_index + 1 < n {
            let left = data[read_index];
            let right = data[read_index + 1];
            if left == *left_id && right == *right_id {
                merged_token = Some(new_id);
            }
        }
        let merged_with_next = merged_token.is_some();
        if !merged_with_prev && !merged_with_next {
            proof {
                let rest = orig.skip(k);
                assert(rest.skip(1) =~= orig.skip(k + 1));
                assert(rest[0] == orig[k]);
                if rest.len() < 2 {
                    assert(orig.skip(k + 1) =~= Seq::<u32>::empty());
                    assert(rest =~= seq![orig[k]]);
                }
                assert(merge_pair(rest, pair, new_id) =~= seq![orig[k]] + merge_pair(orig.skip(k + 1), pair, new_id));
            }
            let value = data[read_index];
            data.set(write_index, value);
            proof {
                assert(data@.take(write_index + 1) =~= data@.take(write_index as int).push(orig[k]));
            }
            write_index += 1;
        } else if let Some(merged_token) = merged_token {
            proof {
                let rest = orig.skip(k);
                assert(rest.skip(2) =~= orig.skip(k + 2));
                assert(rest[0] == orig[k] && rest[1] == orig[k + 1]);
                assert(merge_pair(rest, pair, new_id) =~= seq![new_id] + merge_pair(orig.skip(k + 2), pair, new_id));
            }
            data.set(write_index, merged_token);
            proof {
                assert(data@.take(write_index + 1) =~= data@.take(write_index as int).push(new_id));
            }
            write_index += 1;
        }
        merged_with_prev = merged_with_next;
    }
    proof {
        assert(orig.skip(n as int) =~= Seq::<u32>::empty());
    }
    data.truncate(write_index);
    assert(data@ =~= merge_pair(orig, pair, new_id));
    proof {
        if !orig.contains(new_id) {
            lemma_merge_pair_expand(orig, pair, new_id);
        }
    }
}

} // verus!

verus! {

// ---------------------------------------------------------------------------
// The tokenizer
// ---------------------------------------------------------------------------

/// The byte strings held by a vocabulary vector.
pub open spec fn pieces_of(vocab: Seq<Vec<u8>>) -> Seq<Seq<u8>> {
    vocab.map_values(|v: Vec<u8>| v@)
}

/// A byte-pair tokenizer: learned merge rules and the bytes each token id
/// stands for.
pub struct BpeTokenizer {
    pub merges: PairTable,
    pub vocab: Vec<Vec<u8>>,
}

impl BpeTokenizer {
    /// The bytes of each token id, indexed by id.
    pub open spec fn pieces(&self) -> Seq<Seq<u8>> {
        pieces_of(self.vocab@)
    }

    /// The vocabulary agrees with the merge rules: ids below 256 stand for
    /// their own byte, and each rule's id stands for what its pair spells.
    pub open spec fn wf(&self) -> bool {
        &&& forall|b: u32| b < 256 ==> #[trigger] piece(self.pieces(), b) == seq![b as u8]
        &&& forall|p: (u32, u32)|
            #[trigger] self.merges@.contains_key(p) ==> piece(self.pieces(), self.merges@[p])
                == piece(self.pieces(), p.0) + piece(self.pieces(), p.1)
    }
}

impl Tokenizer for BpeTokenizer {
    /// Applies the learned merges in priority order until none fits.
    fn encode(&self, text: &str) -> (ids: Vec<u32>)
        ensures
            ids@ == merge_all(self.merges@, byte_ids(text.spec_bytes())),
    {
        let ghost goal = merge_all(self.merges@, byte_ids(text.spec_bytes()));
        let mut tokens = tokenize_text(text);
        loop
            invariant
                merge_all(self.merges@, tokens@) == goal,
            ensures
                tokens@ == goal,
            decreases tokens.len(),
        {
            if tokens.len() < 2 {
                break;
            }
            let mut best_pair: Option<(u32, u32)> = None;
            let mut best_id = u32::MAX;
            let last = tokens.len() - 1;
            for pair_start_index in 0..last
                invariant
                    last == tokens.len() - 1,
                    best_upto(self.merges@, tokens@, pair_start_index as int) == match best_pair {
                        Some(p) => Some((p, best_id)),
                        None => None::<((u32, u32), u32)>,
                    },
                    best_pair is None ==> best_id == u32::MAX,
            {
                let pair = (tokens[pair_start_index], tokens[pair_start_index + 1]);
                assert(pair == pair_at(tokens@, pair_start_index as int));
                if let Some(new_id) = self.merges.get(&pair) {
                    let new_id = *new_id;
                    if new_id < best_id {
                        best_id = new_id;
                        best_pair = Some(pair);
                    }
                }
            }
            let target_pair = match best_pair {
                Some(pair) => pair,
                None => break,
            };
            let ghost before = tokens@;
            let n = tokens.len();
            let mut new_tokens: Vec<u32> = Vec::with_capacity(n);
            let mut token_index: usize = 0;
            assert(before.skip(0) =~= before);
            while token_index < n
                invariant
                    n == before.len(),
                    tokens@ == before,
                    token_index <= n,
                    new_tokens@ + merge_pair(before.skip(token_index as int), target_pair, best_id)
                        == merge_pair(before, target_pair, best_id),
                decreases n - token_index,
            {
                let ghost k = token_index as int;
                let ghost rest = before.skip(k);
                if token_index < n - 1 && tokens[token_index] == target_pair.0 && tokens[token_index + 1]
                    == target_pair.1 {
                    assert(rest.skip(2) =~= before.skip(k + 2));
                    assert(merge_pair(rest, target_pair, best_id) =~= seq![best_id] + merge_pair(
                        before.skip(k + 2),
                        target_pair,
                        best_id,
                    ));
                    new_tokens.push(best_id);
                    token_index += 2;
                } else {
                    proof {
                        assert(rest.skip(1) =~= before.skip(k + 1));
                        if rest.len() < 2 {
                            assert(before.skip(k + 1) =~= Seq::<u32>::empty());
                            assert(rest =~= seq![before[k]]);
                        }
                        assert(merge_pair(rest, target_pair, best_id) =~= seq![before[k]] + merge_pair(
                            before.skip(k + 1),
                            target_pair,
                            best_id,
                        ));
                    }
                    new_tokens.push(tokens[token_index]);
                    token_index += 1;
                }
            }
            assert(before.skip(n as int) =~= Seq::<u32>::empty());
            assert(new_tokens@ =~= merge_pair(before, target_pair, best_id));
            proof {
                lemma_best_pair_shortens(self.merges@, before);
            }
            tokens = new_tokens;
        }
        tokens
    }

    /// Looks up the bytes of each token id (skipping unknown ids) and reads
    /// them as UTF-8 text.
    fn decode(&self, ids: &[u32]) -> (text: String)
        ensures
            text@ == utf8_lossy(spell(self.pieces(), ids@)),
            valid_utf8(spell(self.pieces(), ids@)) ==> text@ == decode_utf8(spell(self.pieces(), ids@)),
    {
        let mut bytes: Vec<u8> = Vec::new();
        for i in 0..ids.len()
            invariant
                bytes@ == spell(self.pieces(), ids@.take(i as int)),
        {
            let id = ids[i];
            proof {
                assert(ids@.take(i + 1).drop_last() =~= ids@.take(i as int));
            }
            if (id as usize) < self.vocab.len() {
                let token_bytes = &self.vocab[id as usize];
                for j in 0..token_bytes.len()
                    invariant
                        bytes@ == spell(self.pieces(), ids@.take(i as int)) + token_bytes@.take(j as int),
                {
                    bytes.push(token_bytes[j]);
                    assert(token_bytes@.take(j + 1) =~= token_bytes@.take(j as int).push(token_bytes@[j as int]));
                }
                assert(token_bytes@.take(token_bytes.len() as int) =~= token_bytes@);
            } else {
                assert(bytes@ =~= spell(self.pieces(), ids@.take(i as int)) + Seq::<u8>::empty());
            }
        }
        assert(ids@.take(ids.len() as int) =~= ids@);
        from_utf8_lossy(bytes.as_slice())
    }

    /// The number of byte and merged tokens in the vocabulary.
    fn vocab_size(&self) -> (n: usize)
        ensures
            n == self.vocab.len(),
    {
        self.vocab.len()
    }
}

} // verus!

verus! {

// ---------------------------------------------------------------------------
// Laws of encoding and decoding
// ---------------------------------------------------------------------------

/// The byte ids of a byte string spell that byte string, in a vocabulary
/// where every id below 256 stands for its own byte.
pub proof fn lemma_spell_byte_ids(pieces: Seq<Seq<u8>>, bytes: Seq<u8>)
    requires
        forall|b: u32| b < 256 ==> #[trigger] piece(pieces, b) == seq![b as u8],
    ensures
        spell(pieces, byte_ids(bytes)) == bytes,
    decreases bytes.len(),
{
    if bytes.len() > 0 {
        lemma_spell_byte_ids(pieces, bytes.drop_last());
        assert(byte_ids(bytes).drop_last() =~= byte_ids(bytes.drop_last()));
        let b = bytes.last();
        assert(byte_ids(bytes).last() == b as u32);
        assert(piece(pieces, b as u32) == seq![(b as u32) as u8]);
        assert(spell(pieces, byte_ids(bytes)) =~= bytes);
    } else {
        assert(byte_ids(bytes) =~= Seq::<u32>::empty());
    }
}

/// Applying merge rules never changes what a sequence spells, when each
/// rule's id spells what its pair spells.
pub proof fn lemma_merge_all_spell(merges: Map<(u32, u32), u32>, pieces: Seq<Seq<u8>>, s: Seq<u32>)
    requires
        forall|p: (u32, u32)|
            #[trigger] merges.contains_key(p) ==> piece(pieces, merges[p]) == piece(pieces, p.0)
                + piece(pieces, p.1),
    ensures
        spell(pieces, merge_all(merges, s)) == spell(pieces, s),
    decreases s.len(),
{
    match best_pair(merges, s) {
        None => {},
        Some(b) => {
            lemma_best_upto(merges, s, s.len() - 1);
            lemma_best_pair_shortens(merges, s);
            lemma_merge_pair_spell(pieces, s, b.0, b.1);
            lemma_merge_all_spell(merges, pieces, merge_pair(s, b.0, b.1));
        },
    }
}

/// After encoding, no adjacent pair has a merge rule that could still be
/// applied.
pub proof fn lemma_merge_all_is_done(merges: Map<(u32, u32), u32>, s: Seq<u32>)
    ensures
        best_pair(merges, merge_all(merges, s)) is None,
    decreases s.len(),
{
    match best_pair(merges, s) {
        None => {},
        Some(b) => {
            lemma_best_pair_shortens(merges, s);
            lemma_merge_all_is_done(merges, merge_pair(s, b.0, b.1));
        },
    }
}

/// Decoding what encoding produced gives back the text: encoding spells out
/// exactly the text's UTF-8 bytes, and those bytes decode to the text.
pub proof fn lemma_encode_decode_roundtrip(tokenizer: &BpeTokenizer, text: &str)
    requires
        tokenizer.wf(),
    ensures
        spell(tokenizer.pieces(), merge_all(tokenizer.merges@, byte_ids(text.spec_bytes())))
            == text.spec_bytes(),
        valid_utf8(spell(tokenizer.pieces(), merge_all(tokenizer.merges@, byte_ids(text.spec_bytes())))),
        decode_utf8(spell(tokenizer.pieces(), merge_all(tokenizer.merges@, byte_ids(text.spec_bytes()))))
            == text@,
{
    lemma_merge_all_spell(tokenizer.merges@, tokenizer.pieces(), byte_ids(text.spec_bytes()));
    lemma_spell_byte_ids(tokenizer.pieces(), text.spec_bytes());
    vstd::utf8::encode_utf8_valid_utf8(text@);
    vstd::utf8::encode_utf8_decode_utf8(text@);
}

} // verus!

verus! {

// ---------------------------------------------------------------------------
// Building the vocabulary from learned merges
// ---------------------------------------------------------------------------

/// The state of byte-pair training: the merge rules learned so far, the
/// training data with those merges applied, and the next free token id.
#[derive(Debug)]
pub struct TokenizerState {
    pub merge: PairTable,
    pub data_as_tokens: Vec<u32>,
    pub next_id: u32,
}

/// No two merge rules share an id.
pub open spec fn ids_distinct(merges: Map<(u32, u32), u32>) -> bool {
    forall|p: (u32, u32), q: (u32, u32)|
        #![trigger merges[p], merges[q]]
        merges.contains_key(p) && merges.contains_key(q) && merges[p] == merges[q] ==> p == q
}

/// Every merge rule's id is a merged id below `next_id`, and greater than
/// both ids of its pair.
pub open spec fn merges_ordered(merges: Map<(u32, u32), u32>, next_id: u32) -> bool {
    forall|p: (u32, u32)|
        #[trigger] merges.contains_key(p) ==> 256 <= merges[p] < next_id && p.0 < merges[p] && p.1
            < merges[p]
}

/// The pair whose bytes token `t` gets when the vocabulary is built: a pair
/// whose rule has id `t`, or `(0, 0)` when no rule has that id.
pub open spec fn source_pair(merges: Map<(u32, u32), u32>, t: u32, q: (u32, u32)) -> bool {
    ||| merges.contains_key(q) && merges[q] == t
    ||| q == (0u32, 0u32) && forall|p: (u32, u32)| #[trigger] merges.contains_key(p) ==> merges[p] != t
}

/// Entry `t` of `pieces` is the entry of the pair's left id followed by the
/// entry of its right id.
pub open spec fn joins(pieces: Seq<Seq<u8>>, t: int, q: (u32, u32)) -> bool {
    pieces[t] == pieces[q.0 as int] + pieces[q.1 as int]
}

/// Each merged id `t` below `next_id` stands for the bytes of a pair whose
/// rule has id `t` (or of `(0, 0)` when no rule has it).
pub open spec fn replays_merges(merges: Map<(u32, u32), u32>, pieces: Seq<Seq<u8>>, next_id: u32) -> bool {
    forall|t: int| 256 <= t < next_id ==> #[trigger] replays_merge(merges, pieces, t)
}

/// Merged id `t` stands for the bytes of a pair whose rule has id `t` (or of
/// `(0, 0)` when no rule has it).
pub open spec fn replays_merge(merges: Map<(u32, u32), u32>, pieces: Seq<Seq<u8>>, t: int) -> bool {
    exists|q: (u32, u32)| #![trigger source_pair(merges, t as u32, q)] source_pair(merges, t as u32, q) && joins(pieces, t, q)
}

/// The bytes of `left` followed by the bytes of `right`.
fn concat_bytes(left: &Vec<u8>, right: &Vec<u8>) -> (bytes: Vec<u8>)
    ensures
        bytes@ == left@ + right@,
{
    let mut new_bytes: Vec<u8> = Vec::new();
    for i in 0..left.len()
        invariant
            new_bytes@ == left@.take(i as int),
    {
        new_bytes.push(left[i]);
        assert(left@.take(i + 1) =~= left@.take(i as int).push(left@[i as int]));
    }
    for i in 0..right.len()
        invariant
            new_bytes@ == left@.take(left.len() as int) + right@.take(i as int),
    {
        new_bytes.push(right[i]);
        assert(right@.take(i + 1) =~= right@.take(i as int).push(right@[i as int]));
    }
    assert(left@.take(left.len() as int) =~= left@);
    assert(right@.take(right.len() as int) =~= right@);
    new_bytes
}

/// `tokenizer` holds the rules of `state` and, for each id below its next
/// free id, the bytes that replaying the rules in id order gives.
pub open spec fn built_from(state: TokenizerState, tokenizer: BpeTokenizer) -> bool {
    &&& tokenizer.merges@ == state.merge@
    &&& tokenizer.vocab.len() == state.next_id
    &&& forall|b: int| 0 <= b < 256 ==> #[trigger] tokenizer.pieces()[b] == seq![b as u8]
    &&& replays_merges(state.merge@, tokenizer.pieces(), state.next_id)
}

/// Builds the bytes of each token id by replaying the learned merges in id
/// order.
pub fn build_tokenizer(state: TokenizerState) -> (tokenizer: BpeTokenizer)
    requires
        state.next_id >= 256,
        merges_ordered(state.merge@, state.next_id),
    ensures
        built_from(state, tokenizer),
        ids_distinct(state.merge@) ==> tokenizer.wf(),
{
    let next_id: usize = state.next_id as usize;
    let mut vocab: Vec<Vec<u8>> = Vec::with_capacity(next_id);
    let ghost m = state.merge@;
    let merges = state.merge;
    assert(m == merges@);
    let mut inverse_lookup: Vec<(u32, u32)> = Vec::with_capacity(next_id - 256);
    for x in 0..next_id - 256
        invariant
            inverse_lookup.len() == x,
            forall|y: int| 0 <= y < x ==> #[trigger] inverse_lookup[y] == (0u32, 0u32),
    {
        inverse_lookup.push((0, 0));
    }
    let entries = merges.entries();
    for e in 0..entries.len()
        invariant
            m == merges@,
            merges_ordered(m, next_id as u32),
            next_id >= 256,
            inverse_lookup.len() == next_id - 256,
            forall|i: int| #![trigger entries[i]] 0 <= i < entries.len() ==> m.contains_key(entries[i].0) && m[entries[i].0] == entries[i].1,
            forall|x: int|
                0 <= x < inverse_lookup.len() ==> {
                    ||| (exists|j: int| 0 <= j < e && entries[j].0 == #[trigger] inverse_lookup[x] && entries[j].1 == x + 256)
                    ||| (inverse_lookup[x] == (0u32, 0u32) && forall|j: int| 0 <= j < e ==> #[trigger] entries[j].1 != x + 256)
                },
    {
        let (key, value) = entries[e];
        assert(m.contains_key(key));
        let slot = (value - 256) as usize;
        inverse_lookup.set(slot, key);
        proof {
            assert forall|x: int| 0 <= x < inverse_lookup.len() implies {
                ||| (exists|j: int| 0 <= j < e + 1 && entries[j].0 == #[trigger] inverse_lookup[x] && entries[j].1 == x + 256)
                ||| (inverse_lookup[x] == (0u32, 0u32) && forall|j: int| 0 <= j < e + 1 ==> #[trigger] entries[j].1 != x + 256)
            } by {
                if x == slot {
                    assert(entries[e as int].0 == inverse_lookup[x]);
                }
            }
        }
    }
    // Each slot now holds a pair whose rule has that id, or (0, 0) if there is none.
    assert forall|x: int| 0 <= x < inverse_lookup.len() implies source_pair(m, (x + 256) as u32, #[trigger] inverse_lookup[x])
        && inverse_lookup[x].0 < x + 256 && inverse_lookup[x].1 < x + 256 by {
        if exists|j: int| 0 <= j < entries.len() && entries[j].0 == inverse_lookup[x] && entries[j].1 == x + 256 {
            let j = choose|j: int| 0 <= j < entries.len() && entries[j].0 == inverse_lookup[x] && entries[j].1 == x + 256;
            assert(m.contains_key(entries[j].0));
        } else {
            assert forall|p: (u32, u32)| #[trigger] m.contains_key(p) implies m[p] != (x + 256) as u32 by {
                if m[p] == (x + 256) as u32 {
                    let j = choose|j: int| 0 <= j < entries.len() && entries[j].0 == p;
                    assert(entries[j].1 == x + 256);
                }
            }
        }
    }
    for token_id in 0..next_id
        invariant
            next_id >= 256,
            inverse_lookup.len() == next_id - 256,
            vocab.len() == token_id,
            forall|x: int| 0 <= x < inverse_lookup.len() ==> source_pair(m, (x + 256) as u32, #[trigger] inverse_lookup[x])
                && inverse_lookup[x].0 < x + 256 && inverse_lookup[x].1 < x + 256,
            forall|b: int| 0 <= b < token_id && b < 256 ==> #[trigger] pieces_of(vocab@)[b] == seq![b as u8],
            forall|t: int|
                256 <= t < token_id ==> #[trigger] pieces_of(vocab@)[t] == pieces_of(vocab@)[inverse_lookup[t - 256].0 as int]
                    + pieces_of(vocab@)[inverse_lookup[t - 256].1 as int],
    {
        let ghost before = pieces_of(vocab@);
        if token_id < 256 {
            let mut single: Vec<u8> = Vec::new();
            single.push(token_id as u8);
            vocab.push(single);
            assert(pieces_of(vocab@) =~= before.push(seq![token_id as u8]));
        } else {
            let (left_token_id, right_token_id) = inverse_lookup[token_id - 256];
            let new_bytes = concat_bytes(&vocab[left_token_id as usize], &vocab[right_token_id as usize]);
            vocab.push(new_bytes);
            assert(pieces_of(vocab@) =~= before.push(before[left_token_id as int] + before[right_token_id as int]));
        }
    }
    let tokenizer = BpeTokenizer { merges, vocab };
    proof {
        assert forall|t: int| 256 <= t < state.next_id implies #[trigger] replays_merge(m, tokenizer.pieces(), t) by {
            let x = t - 256;
            let q = inverse_lookup[x];
            assert(source_pair(m, (x + 256) as u32, q));
            assert(source_pair(m, t as u32, q));
            assert(tokenizer.pieces()[t] == tokenizer.pieces()[q.0 as int] + tokenizer.pieces()[q.1 as int]);
            assert(joins(tokenizer.pieces(), t, q));
        }
        assert(replays_merges(m, tokenizer.pieces(), state.next_id));
        if ids_distinct(m) {
            assert forall|b: u32| b < 256 implies #[trigger] piece(tokenizer.pieces(), b) == seq![b as u8] by {
                assert(tokenizer.pieces()[b as int] == seq![b as u8]);
            }
            assert forall|p: (u32, u32)| #[trigger] tokenizer.merges@.contains_key(p) implies piece(tokenizer.pieces(), tokenizer.merges@[p])
                == piece(tokenizer.pieces(), p.0) + piece(tokenizer.pieces(), p.1) by {
                let t = m[p] as int;
                let q = inverse_lookup[t - 256];
                assert(source_pair(m, ((t - 256) + 256) as u32, q));
                assert(q == p);
            }
        }
    }
    tokenizer
}

} // verus!

verus! {

// ---------------------------------------------------------------------------
// Training: counting pairs and merging the most frequent one
// ---------------------------------------------------------------------------

/// How often `p` occurs as an adjacent pair starting before position `k`.
pub open spec fn count_upto(s: Seq<u32>, p: (u32, u32), k: int) -> nat
    decreases k,
{
    if k <= 0 {
        0
    } else {
        count_upto(s, p, k - 1) + if pair_at(s, k - 1) == p {
            1nat
        } else {
            0nat
        }
    }
}

/// How often `p` occurs as an adjacent pair in `s` (overlapping occurrences
/// counted).
pub open spec fn pair_count(s: Seq<u32>, p: (u32, u32)) -> nat {
    if s.len() < 2 {
        0
    } else {
        count_upto(s, p, s.len() - 1)
    }
}

/// No adjacent pair of `s` occurs more often than `w`.
pub open spec fn most_frequent(s: Seq<u32>, w: (u32, u32)) -> bool {
    forall|q: (u32, u32)| #[trigger] pair_count(s, q) <= pair_count(s, w)
}

/// Pair `a` comes before pair `b`: by the left id, then by the right id.
pub open spec fn pair_lt(a: (u32, u32), b: (u32, u32)) -> bool {
    a.0 < b.0 || (a.0 == b.0 && a.1 < b.1)
}

/// `w` is the pair a training round merges in `s`: a most frequent pair,
/// and of several equally frequent pairs the smallest.
pub open spec fn chosen_pair(s: Seq<u32>, w: (u32, u32)) -> bool {
    &&& most_frequent(s, w)
    &&& forall|q: (u32, u32)| #[trigger] pair_count(s, q) == pair_count(s, w) && q != w ==> pair_lt(w, q)
}

/// At most one pair is the chosen pair of a sequence.
pub proof fn lemma_chosen_pair_unique(s: Seq<u32>, a: (u32, u32), b: (u32, u32))
    requires
        chosen_pair(s, a),
        chosen_pair(s, b),
    ensures
        a == b,
{
    assert(pair_count(s, a) <= pair_count(s, b));
    assert(pair_count(s, b) <= pair_count(s, a));
}

/// `after` is `before` with `w`, its chosen pair, merged into the next free
/// id; the chosen pair occurs at least twice.
pub open spec fn is_training_step(before: TokenizerState, after: TokenizerState, w: (u32, u32)) -> bool {
    &&& pair_count(before.data_as_tokens@, w) >= 2
    &&& chosen_pair(before.data_as_tokens@, w)
    &&& after.merge@ == before.merge@.insert(w, before.next_id)
    &&& after.data_as_tokens@ == merge_pair(before.data_as_tokens@, w, before.next_id)
    &&& after.next_id == before.next_id + 1
}

/// `after` is `before` after one merge of its chosen pair.
pub open spec fn training_step(before: TokenizerState, after: TokenizerState) -> bool {
    exists|w: (u32, u32)| #[trigger] is_training_step(before, after, w)
}

/// A training round is determined by the state it starts from: two rounds
/// from the same state end in the same rules, data and next id.
pub proof fn lemma_training_step_unique(before: TokenizerState, a: TokenizerState, b: TokenizerState)
    requires
        training_step(before, a),
        training_step(before, b),
    ensures
        a.merge@ == b.merge@,
        a.data_as_tokens@ == b.data_as_tokens@,
        a.next_id == b.next_id,
{
    let wa = choose|w: (u32, u32)| #[trigger] is_training_step(before, a, w);
    let wb = choose|w: (u32, u32)| #[trigger] is_training_step(before, b, w);
    lemma_chosen_pair_unique(before.data_as_tokens@, wa, wb);
}

/// What training keeps true of its state: ids start above the bytes, every
/// rule's id is fresh and above its pair's ids, and the data only holds ids
/// handed out so far.
pub open spec fn trained_state_wf(state: TokenizerState) -> bool {
    &&& state.next_id >= 256
    &&& merges_ordered(state.merge@, state.next_id)
    &&& ids_distinct(state.merge@)
    &&& forall|i: int| 0 <= i < state.data_as_tokens.len() ==> #[trigger] state.data_as_tokens[i] < state.next_id
}

/// A pair count is at most the number of positions counted.
pub proof fn lemma_count_upto_bound(s: Seq<u32>, p: (u32, u32), k: int)
    requires
        k >= 0,
    ensures
        count_upto(s, p, k) <= k,
    decreases k,
{
    if k > 0 {
        lemma_count_upto_bound(s, p, k - 1);
    }
}

/// A pair is counted before `k` exactly when it occurs before `k`.
pub proof fn lemma_count_upto_occurs(s: Seq<u32>, p: (u32, u32), k: int)
    requires
        k >= 0,
    ensures
        count_upto(s, p, k) > 0 <==> exists|i: int| 0 <= i < k && #[trigger] pair_at(s, i) == p,
    decreases k,
{
    if k > 0 {
        lemma_count_upto_occurs(s, p, k - 1);
        if pair_at(s, k - 1) == p {
            assert(pair_at(s, k - 1) == p);
        }
        if exists|i: int| 0 <= i < k && #[trigger] pair_at(s, i) == p {
            let i = choose|i: int| 0 <= i < k && #[trigger] pair_at(s, i) == p;
            if i < k - 1 {
                assert(exists|j: int| 0 <= j < k - 1 && #[trigger] pair_at(s, j) == p);
            }
        }
    }
}

/// Every id in a merged sequence was in the original or is the new id.
pub proof fn lemma_merge_pair_ids(s: Seq<u32>, pair: (u32, u32), new_id: u32, bound: u32)
    requires
        forall|i: int| 0 <= i < s.len() ==> #[trigger] s[i] < bound,
        new_id < bound,
    ensures
        forall|i: int| 0 <= i < merge_pair(s, pair, new_id).len() ==> #[trigger] merge_pair(s, pair, new_id)[i] < bound,
    decreases s.len(),
{
    if s.len() >= 2 {
        if s[0] == pair.0 && s[1] == pair.1 {
            assert forall|i: int| 0 <= i < s.skip(2).len() implies #[trigger] s.skip(2)[i] < bound by {
                assert(s.skip(2)[i] == s[i + 2]);
            }
            lemma_merge_pair_ids(s.skip(2), pair, new_id, bound);
            let rest = merge_pair(s.skip(2), pair, new_id);
            assert forall|i: int| 0 <= i < merge_pair(s, pair, new_id).len() implies #[trigger] merge_pair(s, pair, new_id)[i] < bound by {
                if i > 0 {
                    assert(merge_pair(s, pair, new_id)[i] == rest[i - 1]);
                }
            }
        } else {
            assert forall|i: int| 0 <= i < s.skip(1).len() implies #[trigger] s.skip(1)[i] < bound by {
                assert(s.skip(1)[i] == s[i + 1]);
            }
            lemma_merge_pair_ids(s.skip(1), pair, new_id, bound);
            let rest = merge_pair(s.skip(1), pair, new_id);
            assert forall|i: int| 0 <= i < merge_pair(s, pair, new_id).len() implies #[trigger] merge_pair(s, pair, new_id)[i] < bound by {
                if i > 0 {
                    assert(merge_pair(s, pair, new_id)[i] == rest[i - 1]);
                } else {
                    assert(merge_pair(s, pair, new_id)[0] == s[0]);
                }
            }
        }
    }
}

/// A training round merges a pair that occurs at least twice and at least
/// as often as every other adjacent pair, and of equally frequent pairs the
/// one with the smallest left id (then right id); the merge replaces it in
/// the data, records it under the next id and hands out that id.
pub proof fn lemma_training_step_most_frequent(before: TokenizerState, after: TokenizerState)
    requires
        training_step(before, after),
    ensures
        exists|w: (u32, u32)|
            #![trigger pair_count(before.data_as_tokens@, w)]
            {
                &&& pair_count(before.data_as_tokens@, w) >= 2
                &&& forall|q: (u32, u32)| pair_count(before.data_as_tokens@, q) <= pair_count(before.data_as_tokens@, w)
                &&& forall|q: (u32, u32)|
                    pair_count(before.data_as_tokens@, q) == pair_count(before.data_as_tokens@, w) && q != w ==> w.0
                        < q.0 || (w.0 == q.0 && w.1 < q.1)
                &&& after.data_as_tokens@ == merge_pair(before.data_as_tokens@, w, before.next_id)
                &&& after.merge@ == before.merge@.insert(w, before.next_id)
                &&& after.next_id == before.next_id + 1
            },
{
    let w = choose|w: (u32, u32)| #[trigger] is_training_step(before, after, w);
    let d = before.data_as_tokens@;
    assert forall|q: (u32, u32)| pair_count(d, q) <= pair_count(d, w) by {
        assert(most_frequent(d, w));
    }
    assert forall|q: (u32, u32)| pair_count(d, q) == pair_count(d, w) && q != w implies w.0 < q.0 || (w.0 == q.0
        && w.1 < q.1) by {
        assert(pair_lt(w, q));
    }
    assert(pair_count(d, w) >= 2);
}

/// Runs one round of training: merges the most frequent adjacent pair into
/// a new token id, if some pair occurs at least twice. Of several equally
/// frequent pairs the smallest (by left id, then right id) is merged.
pub fn iteration(state: TokenizerState) -> (result: (bool, TokenizerState))
    requires
        state.data_as_tokens.len() >= 2,
        state.data_as_tokens.len() <= u32::MAX,
        state.next_id == u32::MAX ==> forall|q: (u32, u32)| #[trigger] pair_count(state.data_as_tokens@, q) < 2,
    ensures
        result.0 <==> exists|q: (u32, u32)| #[trigger] pair_count(state.data_as_tokens@, q) >= 2,
        !result.0 ==> result.1 == state,
        result.0 ==> training_step(state, result.1),
        result.0 ==> exists|w: (u32, u32)|
            #![trigger pair_count(state.data_as_tokens@, w)]
            {
                &&& pair_count(state.data_as_tokens@, w) >= 2
                &&& forall|q: (u32, u32)| pair_count(state.data_as_tokens@, q) <= pair_count(state.data_as_tokens@, w)
                &&& result.1.data_as_tokens@ == merge_pair(state.data_as_tokens@, w, state.next_id)
            },
        trained_state_wf(state) ==> trained_state_wf(result.1),
{
    let ghost d = state.data_as_tokens@;
    let n = state.data_as_tokens.len();
    let mut counter = PairTable::new();
    let pair_positions = n - 1;
    for pair_start_index in 0..pair_positions
        invariant
            pair_positions == n - 1,
            n == d.len(),
            d == state.data_as_tokens@,
            n <= u32::MAX,
            forall|q: (u32, u32)|
                #[trigger] counter@.contains_key(q) <==> count_upto(d, q, pair_start_index as int) > 0,
            forall|q: (u32, u32)|
                #[trigger] counter@.contains_key(q) ==> counter@[q] == count_upto(d, q, pair_start_index as int),
    {
        let ghost k = pair_start_index as int;
        assert(pair_start_index + 1 < n);
        let left = state.data_as_tokens[pair_start_index];
        let right = state.data_as_tokens[pair_start_index + 1];
        let pair = (left, right);
        assert(pair == pair_at(d, k));
        match counter.get(&pair) {
            Some(value) => {
                let value = *value;
                proof {
                    lemma_count_upto_bound(d, pair, k);
                }
                counter.insert(pair, value + 1);
            },
            None => {
                counter.insert(pair, 1);
            },
        }
        proof {
            assert forall|q: (u32, u32)| #[trigger] counter@.contains_key(q) <==> count_upto(d, q, k + 1) > 0 by {
                assert(count_upto(d, q, k + 1) == count_upto(d, q, k) + if pair_at(d, k) == q { 1nat } else { 0nat });
            }
            assert forall|q: (u32, u32)| #[trigger] counter@.contains_key(q) implies counter@[q] == count_upto(d, q, k + 1) by {
                assert(count_upto(d, q, k + 1) == count_upto(d, q, k) + if pair_at(d, k) == q { 1nat } else { 0nat });
            }
        }
    }
    let ghost last = (n - 1) as int;
    proof {
        assert(pair_count(d, pair_at(d, 0)) > 0) by {
            lemma_count_upto_occurs(d, pair_at(d, 0), last);
        }
    }
    let entries = counter.entries();
    assert(counter@.contains_key(pair_at(d, 0)));
    // Pick the pair with the highest count, and of equal counts the smallest
    // pair, so that the round does not depend on the order of the entries.
    let mut winner = entries[0];
    for e in 1..entries.len()
        invariant
            1 <= entries.len(),
            forall|i: int| #![trigger entries[i]] 0 <= i < entries.len() ==> counter@.contains_key(entries[i].0) && counter@[entries[i].0] == entries[i].1,
            counter@.contains_key(winner.0) && counter@[winner.0] == winner.1,
            forall|i: int|
                0 <= i < e ==> #[trigger] entries[i].1 < winner.1 || (entries[i].1 == winner.1 && (entries[i].0
                    == winner.0 || pair_lt(winner.0, entries[i].0))),
    {
        let candidate = entries[e];
        if candidate.1 > winner.1 || (candidate.1 == winner.1 && (candidate.0.0 < winner.0.0 || (candidate.0.0
            == winner.0.0 && candidate.0.1 < winner.0.1))) {
            winner = candidate;
        }
    }
    proof {
        assert forall|q: (u32, u32)| #[trigger] pair_count(d, q) <= winner.1 by {
            if pair_count(d, q) > 0 {
                assert(counter@.contains_key(q));
                let i = choose|i: int| 0 <= i < entries.len() && entries[i].0 == q;
                assert(entries[i].1 <= winner.1);
            }
        }
        assert(pair_count(d, winner.0) == winner.1);
        assert forall|q: (u32, u32)| #[trigger] pair_count(d, q) == pair_count(d, winner.0) && q != winner.0
            implies pair_lt(winner.0, q) by {
            assert(counter@.contains_key(q));
            let i = choose|i: int| 0 <= i < entries.len() && entries[i].0 == q;
            assert(entries[i].1 == winner.1);
        }
        assert(chosen_pair(d, winner.0));
    }
    if winner.1 < 2 {
        return (false, state);
    }
    let (pair, _) = winner;
    let mut state = state;
    let ghost before = state;
    let new_id = state.next_id;
    state.next_id += 1;
    state.merge.insert(pair, new_id);
    merge_ids(&mut state.data_as_tokens, &pair.0, &pair.1, new_id);
    proof {
        assert(is_training_step(before, state, pair));
        lemma_training_step_most_frequent(before, state);
        if trained_state_wf(before) {
            lemma_count_upto_occurs(d, pair, last);
            let i = choose|i: int| 0 <= i < last && #[trigger] pair_at(d, i) == pair;
            assert(d[i] < new_id && d[i + 1] < new_id);
            lemma_merge_pair_ids(d, pair, new_id, state.next_id);
            assert forall|p: (u32, u32), q: (u32, u32)|
                #![trigger state.merge@[p], state.merge@[q]]
                state.merge@.contains_key(p) && state.merge@.contains_key(q) && state.merge@[p]
                    == state.merge@[q] implies p == q by {
                if p != pair && q != pair {
                    assert(before.merge@[p] == before.merge@[q]);
                }
            }
        }
    }
    (true, state)
}

} // verus!

verus! {

/// The data after applying the merges of `history` in order, the `i`-th
/// merge giving id `256 + i`.
pub open spec fn apply_history(s: Seq<u32>, history: Seq<(u32, u32)>) -> Seq<u32>
    decreases history.len(),
{
    if history.len() == 0 {
        s
    } else {
        merge_pair(apply_history(s, history.drop_last()), history.last(), (256 + history.len() - 1) as u32)
    }
}

/// The merge rules that `history` records: its `i`-th pair gets id `256 + i`.
pub open spec fn history_merges(history: Seq<(u32, u32)>) -> Map<(u32, u32), u32>
    decreases history.len(),
{
    if history.len() == 0 {
        Map::empty()
    } else {
        history_merges(history.drop_last()).insert(history.last(), (256 + history.len() - 1) as u32)
    }
}

/// Each pair of `history` was, when it was merged, the chosen pair (the
/// smallest of the most frequent pairs) and occurred at least twice.
pub open spec fn greedy_history(s: Seq<u32>, history: Seq<(u32, u32)>) -> bool
    decreases history.len(),
{
    history.len() == 0 || {
        let before = apply_history(s, history.drop_last());
        &&& greedy_history(s, history.drop_last())
        &&& pair_count(before, history.last()) >= 2
        &&& chosen_pair(before, history.last())
    }
}

/// `state` is what greedy training on `bytes` reaches after the merges of
/// `history`.
pub open spec fn trained_by(bytes: Seq<u8>, history: Seq<(u32, u32)>, state: TokenizerState) -> bool {
    &&& state.next_id == 256 + history.len()
    &&& greedy_history(byte_ids(bytes), history)
    &&& state.merge@ == history_merges(history)
    &&& state.data_as_tokens@ == apply_history(byte_ids(bytes), history)
}

/// `state` is reachable from `bytes` by greedy merges.
pub open spec fn trained_from(bytes: Seq<u8>, state: TokenizerState) -> bool {
    exists|history: Seq<(u32, u32)>| #[trigger] trained_by(bytes, history, state)
}

/// What greedy training on `bytes` towards `target_vocab_size` ends in: a
/// reachable, well-formed state that stopped at the target or when no pair
/// occurred twice.
pub open spec fn training_result(bytes: Seq<u8>, target_vocab_size: u32, state: TokenizerState) -> bool {
    &&& trained_from(bytes, state)
    &&& trained_state_wf(state)
    &&& target_vocab_size <= 256 ==> state.next_id == 256
    &&& target_vocab_size > 256 ==> state.next_id <= target_vocab_size
    &&& state.next_id < target_vocab_size ==> forall|q: (u32, u32)|
        #[trigger] pair_count(state.data_as_tokens@, q) < 2
}

/// Training on `bytes` ends in `state`, and `tokenizer` is built from it.
pub open spec fn trains_into(bytes: Seq<u8>, target_vocab_size: u32, state: TokenizerState, tokenizer: BpeTokenizer) -> bool {
    &&& training_result(bytes, target_vocab_size, state)
    &&& built_from(state, tokenizer)
}

/// `tokenizer` is what training on `bytes` and building the vocabulary
/// gives.
pub open spec fn learned_from(bytes: Seq<u8>, target_vocab_size: u32, tokenizer: BpeTokenizer) -> bool {
    exists|state: TokenizerState| #[trigger] trains_into(bytes, target_vocab_size, state, tokenizer)
}

/// A prefix of a greedy history is greedy.
pub proof fn lemma_greedy_prefix(s: Seq<u32>, history: Seq<(u32, u32)>, k: int)
    requires
        greedy_history(s, history),
        0 <= k <= history.len(),
    ensures
        greedy_history(s, history.take(k)),
    decreases history.len(),
{
    if k < history.len() {
        assert(history.take(k) =~= history.drop_last().take(k));
        lemma_greedy_prefix(s, history.drop_last(), k);
    } else {
        assert(history.take(k) =~= history);
    }
}

/// Two greedy histories of the same length from the same data are equal.
pub proof fn lemma_greedy_history_unique(s: Seq<u32>, a: Seq<(u32, u32)>, b: Seq<(u32, u32)>)
    requires
        greedy_history(s, a),
        greedy_history(s, b),
        a.len() == b.len(),
    ensures
        a == b,
    decreases a.len(),
{
    if a.len() > 0 {
        lemma_greedy_history_unique(s, a.drop_last(), b.drop_last());
        lemma_chosen_pair_unique(apply_history(s, a.drop_last()), a.last(), b.last());
        assert(a =~= b) by {
            assert forall|i: int| 0 <= i < a.len() implies a[i] == b[i] by {
                if i < a.len() - 1 {
                    assert(a.drop_last()[i] == b.drop_last()[i]);
                }
            }
        }
    }
}

/// A greedy run that stopped before another greedy run on the same data did
/// not stop at its target, so it is not the shorter one.
proof fn lemma_training_not_shorter(
    bytes: Seq<u8>,
    target_vocab_size: u32,
    a: TokenizerState,
    ha: Seq<(u32, u32)>,
    b: TokenizerState,
    hb: Seq<(u32, u32)>,
)
    requires
        training_result(bytes, target_vocab_size, a),
        training_result(bytes, target_vocab_size, b),
        trained_by(bytes, ha, a),
        trained_by(bytes, hb, b),
    ensures
        ha.len() >= hb.len(),
{
    let s = byte_ids(bytes);
    if ha.len() < hb.len() {
        let k = ha.len() as int;
        lemma_greedy_prefix(s, hb, k + 1);
        lemma_greedy_prefix(s, hb, k);
        assert(hb.take(k + 1).drop_last() =~= hb.take(k));
        lemma_greedy_history_unique(s, ha, hb.take(k));
        assert(hb.take(k + 1).last() == hb[k]);
        assert(pair_count(a.data_as_tokens@, hb[k]) >= 2);
    }
}

/// Training is determined by the text and the target: any two results of
/// training the same bytes towards the same target hold the same rules, the
/// same data and the same next id.
pub proof fn lemma_training_deterministic(
    bytes: Seq<u8>,
    target_vocab_size: u32,
    a: TokenizerState,
    b: TokenizerState,
)
    requires
        training_result(bytes, target_vocab_size, a),
        training_result(bytes, target_vocab_size, b),
    ensures
        a.merge@ == b.merge@,
        a.data_as_tokens@ == b.data_as_tokens@,
        a.next_id == b.next_id,
{
    let ha = choose|h: Seq<(u32, u32)>| #[trigger] trained_by(bytes, h, a);
    let hb = choose|h: Seq<(u32, u32)>| #[trigger] trained_by(bytes, h, b);
    lemma_training_not_shorter(bytes, target_vocab_size, a, ha, b, hb);
    lemma_training_not_shorter(bytes, target_vocab_size, b, hb, a, ha);
    lemma_greedy_history_unique(byte_ids(bytes), ha, hb);
}

/// A pair is counted in `s` exactly when it occurs there.
pub proof fn lemma_pair_count_occurs(s: Seq<u32>, p: (u32, u32))
    ensures
        pair_count(s, p) > 0 <==> exists|i: int| 0 <= i < s.len() - 1 && #[trigger] pair_at(s, i) == p,
{
    if s.len() >= 2 {
        lemma_count_upto_occurs(s, p, s.len() - 1);
    }
}

/// The first id of a merged sequence: the new id when the sequence starts
/// with the pair, else the sequence's own first id.
proof fn lemma_merge_pair_first(s: Seq<u32>, pair: (u32, u32), new_id: u32)
    requires
        s.len() >= 1,
    ensures
        merge_pair(s, pair, new_id).len() >= 1,
        merge_pair(s, pair, new_id)[0] == if s.len() >= 2 && s[0] == pair.0 && s[1] == pair.1 {
            new_id
        } else {
            s[0]
        },
{
}

/// An adjacent pair of a merged sequence that holds no new id was already
/// adjacent in the original, and is not the merged pair: merging creates no
/// other pair and leaves no occurrence of its own pair behind.
pub proof fn lemma_merge_pair_adjacent(s: Seq<u32>, pair: (u32, u32), new_id: u32, i: int)
    requires
        0 <= i < merge_pair(s, pair, new_id).len() - 1,
        merge_pair(s, pair, new_id)[i] != new_id,
        merge_pair(s, pair, new_id)[i + 1] != new_id,
    ensures
        exists|j: int| 0 <= j < s.len() - 1 && #[trigger] pair_at(s, j) == pair_at(merge_pair(s, pair, new_id), i),
        pair_at(merge_pair(s, pair, new_id), i) != pair,
    decreases s.len(),
{
    let r = merge_pair(s, pair, new_id);
    if s.len() < 2 {
    } else if s[0] == pair.0 && s[1] == pair.1 {
        let t = s.skip(2);
        let rt = merge_pair(t, pair, new_id);
        assert(r[i] == rt[i - 1] && r[i + 1] == rt[i]);
        lemma_merge_pair_adjacent(t, pair, new_id, i - 1);
        let j = choose|j: int| 0 <= j < t.len() - 1 && #[trigger] pair_at(t, j) == pair_at(rt, i - 1);
        assert(pair_at(s, j + 2) == pair_at(t, j));
    } else {
        let t = s.skip(1);
        let rt = merge_pair(t, pair, new_id);
        if i == 0 {
            lemma_merge_pair_first(t, pair, new_id);
            assert(r[1] == rt[0]);
            assert(pair_at(s, 0) == pair_at(r, 0));
        } else {
            assert(r[i] == rt[i - 1] && r[i + 1] == rt[i]);
            lemma_merge_pair_adjacent(t, pair, new_id, i - 1);
            let j = choose|j: int| 0 <= j < t.len() - 1 && #[trigger] pair_at(t, j) == pair_at(rt, i - 1);
            assert(pair_at(s, j + 1) == pair_at(t, j));
        }
    }
}

/// Along a greedy history from byte ids: the data only holds ids handed out
/// so far, each merged pair holds ids handed out before it, and no merged
/// pair occurs in the data any more.
pub proof fn lemma_history_clears(s: Seq<u32>, history: Seq<(u32, u32)>)
    requires
        greedy_history(s, history),
        forall|i: int| 0 <= i < s.len() ==> #[trigger] s[i] < 256,
        256 + history.len() <= u32::MAX,
    ensures
        forall|i: int|
            0 <= i < apply_history(s, history).len() ==> #[trigger] apply_history(s, history)[i] < 256
                + history.len(),
        forall|j: int| 0 <= j < history.len() ==> #[trigger] history[j].0 < 256 + j && history[j].1 < 256 + j,
        forall|j: int| 0 <= j < history.len() ==> #[trigger] pair_count(apply_history(s, history), history[j]) == 0,
    decreases history.len(),
{
    if history.len() > 0 {
        let h = history.drop_last();
        let w = history.last();
        let n = (256 + h.len()) as u32;
        let before = apply_history(s, h);
        let after = apply_history(s, history);
        lemma_history_clears(s, h);
        assert(after == merge_pair(before, w, n));
        lemma_pair_count_occurs(before, w);
        let k = choose|k: int| 0 <= k < before.len() - 1 && #[trigger] pair_at(before, k) == w;
        assert(before[k] < n && before[k + 1] < n);
        lemma_merge_pair_ids(before, w, n, (n + 1) as u32);
        assert forall|j: int| 0 <= j < history.len() implies #[trigger] history[j].0 < 256 + j && history[j].1 < 256 + j by {
            if j < h.len() {
                assert(h[j] == history[j]);
            }
        }
        assert forall|j: int| 0 <= j < history.len() implies #[trigger] pair_count(after, history[j]) == 0 by {
            let p = history[j];
            lemma_pair_count_occurs(after, p);
            if pair_count(after, p) > 0 {
                let i = choose|i: int| 0 <= i < after.len() - 1 && #[trigger] pair_at(after, i) == p;
                assert(history[j].0 < 256 + j && history[j].1 < 256 + j);
                assert(p.0 < n && p.1 < n);
                lemma_merge_pair_adjacent(before, w, n, i);
                if j < h.len() {
                    assert(h[j] == p);
                    lemma_pair_count_occurs(before, p);
                }
            }
        }
    }
}

/// A greedy history from byte ids never merges the same pair twice.
pub proof fn lemma_history_distinct(s: Seq<u32>, history: Seq<(u32, u32)>)
    requires
        greedy_history(s, history),
        forall|i: int| 0 <= i < s.len() ==> #[trigger] s[i] < 256,
        256 + history.len() <= u32::MAX,
    ensures
        history.no_duplicates(),
{
    assert forall|i: int, j: int| 0 <= i < history.len() && 0 <= j < history.len() && i != j implies history[i]
        != history[j] by {
        let (a, b) = if i < j { (i, j) } else { (j, i) };
        lemma_greedy_prefix(s, history, b + 1);
        lemma_greedy_prefix(s, history, b);
        let prefix = history.take(b);
        assert(history.take(b + 1).drop_last() =~= prefix);
        assert(history.take(b + 1).last() == history[b]);
        lemma_history_clears(s, prefix);
        assert(prefix[a] == history[a]);
    }
}

/// The rules of a history without repeats: the `k`-th pair has id `256 + k`,
/// every rule is one of the pairs, and there are as many rules as pairs.
pub proof fn lemma_history_merges(history: Seq<(u32, u32)>)
    requires
        history.no_duplicates(),
        256 + history.len() <= u32::MAX,
    ensures
        history_merges(history).dom().finite(),
        history_merges(history).dom().len() == history.len(),
        forall|k: int|
            0 <= k < history.len() ==> #[trigger] history_merges(history).contains_key(history[k])
                && history_merges(history)[history[k]] == 256 + k,
        forall|p: (u32, u32)|
            #[trigger] history_merges(history).contains_key(p) ==> exists|k: int| 0 <= k < history.len() && history[k] == p,
    decreases history.len(),
{
    if history.len() > 0 {
        let h = history.drop_last();
        let w = history.last();
        assert(h.no_duplicates());
        lemma_history_merges(h);
        assert(!history_merges(h).contains_key(w)) by {
            if history_merges(h).contains_key(w) {
                let k = choose|k: int| 0 <= k < h.len() && h[k] == w;
                assert(history[k] == history[history.len() - 1]);
            }
        }
        assert forall|k: int| 0 <= k < history.len() implies #[trigger] history_merges(history).contains_key(history[k])
            && history_merges(history)[history[k]] == 256 + k by {
            if k < h.len() {
                assert(h[k] == history[k]);
                assert(history[k] != w);
            }
        }
        assert forall|p: (u32, u32)| #[trigger] history_merges(history).contains_key(p) implies exists|k: int|
            0 <= k < history.len() && history[k] == p by {
            if p != w {
                let k = choose|k: int| 0 <= k < h.len() && h[k] == p;
                assert(history[k] == p);
            } else {
                assert(history[history.len() - 1] == p);
            }
        }
    }
}

/// Replaying a history where each rule's id spells what its pair spells
/// never changes what the data spells.
pub proof fn lemma_apply_history_spell(
    merges: Map<(u32, u32), u32>,
    pieces: Seq<Seq<u8>>,
    s: Seq<u32>,
    history: Seq<(u32, u32)>,
)
    requires
        forall|p: (u32, u32)|
            #[trigger] merges.contains_key(p) ==> piece(pieces, merges[p]) == piece(pieces, p.0) + piece(pieces, p.1),
        forall|k: int| 0 <= k < history.len() ==> #[trigger] merges.contains_key(history[k]) && merges[history[k]] == 256 + k,
    ensures
        spell(pieces, apply_history(s, history)) == spell(pieces, s),
    decreases history.len(),
{
    if history.len() > 0 {
        let h = history.drop_last();
        let w = history.last();
        assert forall|k: int| 0 <= k < h.len() implies #[trigger] merges.contains_key(h[k]) && merges[h[k]] == 256 + k by {
            assert(h[k] == history[k]);
        }
        lemma_apply_history_spell(merges, pieces, s, h);
        assert(merges.contains_key(history[history.len() - 1]));
        lemma_merge_pair_spell(pieces, apply_history(s, h), w, (256 + h.len()) as u32);
    }
}

/// Encoding with the rules of a greedy history, from any point of that
/// history, ends where the history ends: at each point the smallest id that
/// fits is the next rule of the history.
pub proof fn lemma_merge_all_history(s: Seq<u32>, history: Seq<(u32, u32)>, k: int)
    requires
        greedy_history(s, history),
        forall|i: int| 0 <= i < s.len() ==> #[trigger] s[i] < 256,
        256 + history.len() <= u32::MAX,
        0 <= k <= history.len(),
    ensures
        merge_all(history_merges(history), apply_history(s, history.take(k))) == apply_history(s, history),
    decreases history.len() - k,
{
    let m = history_merges(history);
    let d = apply_history(s, history.take(k));
    lemma_history_distinct(s, history);
    lemma_history_merges(history);
    lemma_greedy_prefix(s, history, k);
    lemma_history_clears(s, history.take(k));
    if k == history.len() {
        assert(history.take(k) =~= history);
        if d.len() >= 2 {
            lemma_best_upto(m, d, d.len() - 1);
            if best_pair(m, d) is Some {
                let b = best_pair(m, d)->0;
                let i = choose|i: int| 0 <= i < d.len() - 1 && #[trigger] pair_at(d, i) == b.0;
                let j = choose|j: int| 0 <= j < history.len() && history[j] == b.0;
                lemma_pair_count_occurs(d, history[j]);
            }
        }
    } else {
        lemma_greedy_prefix(s, history, k + 1);
        let w = history[k];
        assert(history.take(k + 1).drop_last() =~= history.take(k));
        assert(history.take(k + 1).last() == w);
        assert(pair_count(d, w) >= 2);
        lemma_pair_count_occurs(d, w);
        let iw = choose|i: int| 0 <= i < d.len() - 1 && #[trigger] pair_at(d, i) == w;
        assert(history_merges(history).contains_key(history[k]));
        assert(m[w] == 256 + k);
        lemma_best_upto(m, d, d.len() - 1);
        assert(best_pair(m, d) is Some);
        let b = best_pair(m, d)->0;
        let i = choose|i: int| 0 <= i < d.len() - 1 && #[trigger] pair_at(d, i) == b.0;
        let j = choose|j: int| 0 <= j < history.len() && history[j] == b.0;
        if j < k {
            assert(history.take(k)[j] == history[j]);
            lemma_pair_count_occurs(d, history[j]);
        }
        assert(b.1 <= m[pair_at(d, iw)]);
        assert(j == k);
        assert(b == (w, (256 + k) as u32));
        assert(apply_history(s, history.take(k + 1)) == merge_pair(d, w, (256 + k) as u32));
        lemma_merge_all_history(s, history, k + 1);
    }
}

/// Some rule has id `t`.
pub open spec fn has_rule_with_id(merges: Map<(u32, u32), u32>, t: int) -> bool {
    exists|p: (u32, u32)| #[trigger] merges.contains_key(p) && merges[p] == t
}

/// What a training result holds beyond its definition: one rule per id
/// handed out, so the next id is 256 plus the number of rules and every id
/// from 256 below it belongs to a rule; the next id is at most the larger of
/// 256 and the target; and encoding the training bytes with the learned
/// rules gives exactly the trained data.
pub proof fn lemma_trained_state(bytes: Seq<u8>, target_vocab_size: u32, state: TokenizerState)
    requires
        training_result(bytes, target_vocab_size, state),
    ensures
        state.merge@.dom().finite(),
        state.next_id == 256 + state.merge@.dom().len(),
        forall|t: int| 256 <= t < state.next_id ==> #[trigger] has_rule_with_id(state.merge@, t),
        state.next_id <= if target_vocab_size <= 256 { 256 } else { target_vocab_size },
        merge_all(state.merge@, byte_ids(bytes)) == state.data_as_tokens@,
{
    let history = choose|h: Seq<(u32, u32)>| #[trigger] trained_by(bytes, h, state);
    let s = byte_ids(bytes);
    assert forall|i: int| 0 <= i < s.len() implies #[trigger] s[i] < 256 by {
        assert(s[i] == bytes[i] as u32);
    }
    lemma_history_distinct(s, history);
    lemma_history_merges(history);
    assert forall|t: int| 256 <= t < state.next_id implies #[trigger] has_rule_with_id(state.merge@, t) by {
        assert(state.merge@.contains_key(history[t - 256]));
    }
    lemma_merge_all_history(s, history, 0);
    assert(history.take(0) =~= Seq::<(u32, u32)>::empty());
}

/// A vocabulary built from a well-formed training state agrees with its
/// rules.
pub proof fn lemma_built_wf(state: TokenizerState, tokenizer: BpeTokenizer)
    requires
        built_from(state, tokenizer),
        trained_state_wf(state),
    ensures
        tokenizer.wf(),
{
    let m = state.merge@;
    let pieces = tokenizer.pieces();
    assert forall|b: u32| b < 256 implies #[trigger] piece(pieces, b) == seq![b as u8] by {
        assert(pieces[b as int] == seq![b as u8]);
    }
    assert forall|p: (u32, u32)| #[trigger] tokenizer.merges@.contains_key(p) implies piece(pieces, tokenizer.merges@[p])
        == piece(pieces, p.0) + piece(pieces, p.1) by {
        let t = m[p] as int;
        assert(replays_merge(m, pieces, t));
        let q = choose|q: (u32, u32)| #[trigger] source_pair(m, t as u32, q) && joins(pieces, t, q);
        if q != p {
            assert(!(m.contains_key(q) && m[q] == t));
        }
    }
}

/// A tokenizer that training on `text` and building the vocabulary give
/// agrees with its rules, has one token per byte plus one per rule, encodes
/// the training text into exactly the trained data, and spells the trained
/// data back into the text.
pub proof fn lemma_trained_tokenizer(
    text: &str,
    target_vocab_size: u32,
    state: TokenizerState,
    tokenizer: BpeTokenizer,
)
    requires
        trains_into(text.spec_bytes(), target_vocab_size, state, tokenizer),
    ensures
        tokenizer.wf(),
        tokenizer.vocab.len() == state.next_id,
        tokenizer.vocab.len() == 256 + tokenizer.merges@.dom().len(),
        merge_all(tokenizer.merges@, byte_ids(text.spec_bytes())) == state.data_as_tokens@,
        spell(tokenizer.pieces(), state.data_as_tokens@) == text.spec_bytes(),
        valid_utf8(spell(tokenizer.pieces(), state.data_as_tokens@)),
        decode_utf8(spell(tokenizer.pieces(), state.data_as_tokens@)) == text@,
{
    lemma_trained_state(text.spec_bytes(), target_vocab_size, state);
    lemma_built_wf(state, tokenizer);
    lemma_encode_decode_roundtrip(&tokenizer, text);
}

/// Learns merges of the most frequent adjacent pairs (the smallest pair of
/// several equally frequent ones) until the vocabulary reaches
/// `target_vocab_size` or no pair occurs twice.
pub fn train(text: &str, target_vocab_size: u32) -> (state: TokenizerState)
    requires
        text.spec_bytes().len() >= 2 || target_vocab_size <= 256,
        text.spec_bytes().len() <= u32::MAX,
    ensures
        training_result(text.spec_bytes(), target_vocab_size, state),
        state.next_id == 256 + state.merge@.dom().len(),
        forall|t: int| 256 <= t < state.next_id ==> #[trigger] has_rule_with_id(state.merge@, t),
        merge_all(state.merge@, byte_ids(text.spec_bytes())) == state.data_as_tokens@,
{
    let ghost bytes = text.spec_bytes();
    let mut state = TokenizerState { merge: PairTable::new(), data_as_tokens: tokenize_text(text), next_id: 256 };
    let ghost mut history: Seq<(u32, u32)> = Seq::empty();
    proof {
        assert(trained_by(bytes, history, state));
        assert(byte_ids(bytes).len() == bytes.len());
        assert forall|i: int| 0 <= i < state.data_as_tokens.len() implies #[trigger] state.data_as_tokens[i] < state.next_id by {
            assert(state.data_as_tokens[i] == bytes[i] as u32);
        }
    }
    let mut was_merged = true;
    while was_merged && state.next_id < target_vocab_size
        invariant
            bytes == text.spec_bytes(),
            bytes.len() <= u32::MAX,
            trained_by(bytes, history, state),
            trained_state_wf(state),
            state.data_as_tokens.len() <= bytes.len(),
            was_merged ==> state.data_as_tokens.len() >= 2 || state.next_id >= target_vocab_size,
            target_vocab_size <= 256 ==> state.next_id == 256,
            target_vocab_size > 256 ==> state.next_id <= target_vocab_size,
            !was_merged ==> forall|q: (u32, u32)| #[trigger] pair_count(state.data_as_tokens@, q) < 2,
        decreases target_vocab_size - state.next_id + if was_merged { 1int } else { 0int },
    {
        let ghost before = state;
        let (merged, next_state) = iteration(state);
        was_merged = merged;
        state = next_state;
        proof {
            if merged {
                let w = choose|w: (u32, u32)| #[trigger] is_training_step(before, state, w);
                let new_history = history.push(w);
                assert(new_history.drop_last() =~= history);
                assert(trained_by(bytes, new_history, state));
                history = new_history;
                lemma_count_upto_bound(before.data_as_tokens@, w, before.data_as_tokens.len() - 1);
                lemma_merge_pair_len(before.data_as_tokens@, w, before.next_id);
            } else {
                assert forall|q: (u32, u32)| #[trigger] pair_count(state.data_as_tokens@, q) < 2 by {
                    if pair_count(state.data_as_tokens@, q) >= 2 {
                        assert(exists|q: (u32, u32)| #[trigger] pair_count(before.data_as_tokens@, q) >= 2);
                    }
                }
            }
        }
    }
    proof {
        lemma_trained_state(bytes, target_vocab_size, state);
    }
    state
}

} // verus!
