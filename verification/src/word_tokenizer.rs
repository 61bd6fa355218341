use crate::text::{is_white_space, is_whitespace, push_char};
use crate::tokenizer::Tokenizer;
use vstd::string::StrSliceExecFns;
use vstd::prelude::*;
use vstd::string::StringExecFns;
use vstd::std_specs::iter::IteratorSpec;

verus! {

/// The punctuation marks that become tokens of their own.
pub open spec fn is_punctuation(c: char) -> bool {
    c == ',' || c == '.' || c == '!' || c == '?'
}

/// A character that ends a word: whitespace or punctuation.
pub open spec fn spec_is_delimiter(c: char) -> bool {
    is_white_space(c) || is_punctuation(c)
}

/// The word being read, as a list of finished words: one word if it is not
/// empty, none otherwise.
pub open spec fn flush(current: Seq<char>) -> Seq<Seq<char>> {
    if current.len() > 0 {
        seq![current]
    } else {
        Seq::empty()
    }
}

/// The words of `s`, reading on from a word `current` that has been started.
pub open spec fn split_from(s: Seq<char>, current: Seq<char>) -> Seq<Seq<char>>
    decreases s.len(),
{
    if s.len() == 0 {
        flush(current)
    } else if is_white_space(s[0]) {
        flush(current) + split_from(s.skip(1), Seq::empty())
    } else if is_punctuation(s[0]) {
        flush(current) + seq![seq![s[0]]] + split_from(s.skip(1), Seq::empty())
    } else {
        split_from(s.skip(1), current.push(s[0]))
    }
}

/// The words of `s`: maximal runs of characters that are neither whitespace
/// nor punctuation, and each punctuation mark on its own, in order.
pub open spec fn words_of(s: Seq<char>) -> Seq<Seq<char>> {
    split_from(s, Seq::empty())
}

/// The character sequences held by a vector of strings.
pub open spec fn strings_view(v: Seq<String>) -> Seq<Seq<char>> {
    v.map_values(|w: String| w@)
}

/// Recognizes the characters that end a word in this tokenizer.
pub fn is_delimiter(character: char) -> (r: bool)
    ensures
        r == spec_is_delimiter(character),
{
    is_whitespace(character) || character == ',' || character == '.' || character == '!'
        || character == '?'
}

/// Splits text into words and a separate token for each punctuation mark.
///
/// This simple tokenizer only knows words exactly as they occur in the
/// training data.
pub fn split_words(text: &str) -> (words: Vec<String>)
    ensures
        strings_view(words@) == words_of(text@),
{
    let ghost all = text@;
    let mut words: Vec<String> = Vec::new();
    let mut current = String::new();
    let ghost mut position: int = 0;
    let mut chars = text.chars();
    assert(all.skip(0) =~= all);
    assert(strings_view(words@) + split_from(all.skip(0), current@) =~= words_of(all));
    loop
        invariant
            all == text@,
            chars.remaining() == all.skip(position),
            position <= all.len(),
            0 <= position,
            strings_view(words@) + split_from(all.skip(position), current@) == words_of(all),
        ensures
            strings_view(words@) + flush(current@) == words_of(all),
        decreases all.len() - position,
    {
        let ghost rest = all.skip(position);
        let ghost cur = current@;
        match chars.next() {
            None => {
                assert(rest.len() == 0);
                break;
            },
            Some(character) => {
                assert(character == rest[0]);
                assert(rest.skip(1) =~= all.skip(position + 1));
                let ghost before = strings_view(words@);
                if is_whitespace(character) {
                    if !current.as_str().is_empty() {
                        words.push(current);
                        current = String::new();
                    }
                    assert(strings_view(words@) =~= before + flush(cur));
                    assert(current@ =~= Seq::<char>::empty());
                } else if character == ',' || character == '.' || character == '!' || character == '?' {
                    if !current.as_str().is_empty() {
                        words.push(current);
                        current = String::new();
                    }
                    let mut mark = String::new();
                    push_char(&mut mark, character);
                    words.push(mark);
                    assert(mark@ =~= seq![character]);
                    assert(strings_view(words@) =~= before + flush(cur) + seq![seq![character]]);
                    assert(current@ =~= Seq::<char>::empty());
                } else {
                    push_char(&mut current, character);
                }
                proof {
                    position = position + 1;
                }
            },
        }
    }
    let ghost before = strings_view(words@);
    if !current.as_str().is_empty() {
        words.push(current);
    }
    assert(strings_view(words@) =~= before + flush(current@));
    words
}

} // verus!

verus! {

/// A token that split_words can produce: a single punctuation mark, or a
/// non-empty run of characters that are neither whitespace nor punctuation.
pub open spec fn is_word_token(w: Seq<char>) -> bool {
    ||| w.len() == 1 && is_punctuation(w[0]) && !is_white_space(w[0])
    ||| w.len() > 0 && forall|i: int| 0 <= i < w.len() ==> !#[trigger] spec_is_delimiter(w[i])
}

/// The distinct words of `words`, in the order in which they first occur.
pub open spec fn first_seen(words: Seq<Seq<char>>) -> Seq<Seq<char>>
    decreases words.len(),
{
    if words.len() == 0 {
        Seq::empty()
    } else {
        let prev = first_seen(words.drop_last());
        if prev.contains(words.last()) {
            prev
        } else {
            prev.push(words.last())
        }
    }
}

/// The id of word `w` in `vocab`: its position there, if it is there.
pub open spec fn word_id(vocab: Seq<Seq<char>>, w: Seq<char>) -> Option<int> {
    if vocab.contains(w) {
        Some(vocab.index_of(w))
    } else {
        None
    }
}

/// The ids of the known words of `words`, in order; unknown words are left
/// out.
pub open spec fn lookup_ids(vocab: Seq<Seq<char>>, words: Seq<Seq<char>>) -> Seq<u32>
    decreases words.len(),
{
    if words.len() == 0 {
        Seq::empty()
    } else {
        let prev = lookup_ids(vocab, words.drop_last());
        match word_id(vocab, words.last()) {
            Some(i) => prev.push(i as u32),
            None => prev,
        }
    }
}

/// A single punctuation mark, which is written without a space before it.
pub open spec fn is_punctuation_token(t: Seq<char>) -> bool {
    t.len() == 1 && is_punctuation(t[0])
}

/// The text for `ids`: the known tokens joined by single spaces, except
/// that punctuation attaches to what comes before it; unknown ids are
/// skipped.
pub open spec fn join_tokens(vocab: Seq<Seq<char>>, ids: Seq<u32>) -> Seq<char>
    decreases ids.len(),
{
    if ids.len() == 0 {
        Seq::empty()
    } else {
        let prev = join_tokens(vocab, ids.drop_last());
        let id = ids.last();
        if id < vocab.len() {
            let t = vocab[id as int];
            if prev.len() > 0 && !is_punctuation_token(t) {
                prev + seq![' '] + t
            } else {
                prev + t
            }
        } else {
            prev
        }
    }
}

/// A vocabulary of whole words, each with the id of its position.
pub struct WordTokenizer {
    vocab: Vec<String>,
}

impl View for WordTokenizer {
    type V = Seq<Seq<char>>;

    closed spec fn view(&self) -> Seq<Seq<char>> {
        strings_view(self.vocab@)
    }
}

impl WordTokenizer {
    /// No word occurs twice, every word is one that split_words can
    /// produce, and every position fits a 32-bit id.
    #[verifier::type_invariant]
    closed spec fn inv(self) -> bool {
        &&& strings_view(self.vocab@).no_duplicates()
        &&& forall|i: int| 0 <= i < self.vocab.len() ==> is_word_token(#[trigger] strings_view(self.vocab@)[i])
        &&& self.vocab.len() <= u32::MAX
    }
}

/// The position of the first entry of `vocab` equal to `word`, if any.
fn find_word(vocab: &Vec<String>, word: &String) -> (r: Option<usize>)
    ensures
        match r {
            Some(i) => i < vocab.len() && strings_view(vocab@)[i as int] == word@ && forall|j: int|
                0 <= j < i ==> strings_view(vocab@)[j] != word@,
            None => !strings_view(vocab@).contains(word@),
        },
{
    for i in 0..vocab.len()
        invariant
            forall|j: int| 0 <= j < i ==> strings_view(vocab@)[j] != word@,
    {
        if vocab[i] == *word {
            return Some(i);
        }
    }
    None
}

} // verus!

verus! {

/// Every word produced while reading `s` on from a started word without
/// delimiters is a token that split_words can produce.
pub proof fn lemma_split_from_tokens(s: Seq<char>, current: Seq<char>)
    requires
        forall|i: int| 0 <= i < current.len() ==> !#[trigger] spec_is_delimiter(current[i]),
    ensures
        forall|k: int| 0 <= k < split_from(s, current).len() ==> is_word_token(#[trigger] split_from(s, current)[k]),
    decreases s.len(),
{
    let empty = Seq::<char>::empty();
    if current.len() > 0 {
        assert(is_word_token(current));
        assert(flush(current) =~= seq![current]);
    }
    if s.len() == 0 {
        if current.len() > 0 {
            assert(split_from(s, current)[0] == current);
        }
    } else if is_white_space(s[0]) {
        lemma_split_from_tokens(s.skip(1), empty);
        let r = split_from(s.skip(1), empty);
        assert forall|k: int| 0 <= k < split_from(s, current).len() implies is_word_token(#[trigger] split_from(s, current)[k]) by {
            if k >= flush(current).len() {
                assert(split_from(s, current)[k] == r[k - flush(current).len()]);
            } else {
                assert(split_from(s, current)[k] == current);
            }
        }
    } else if is_punctuation(s[0]) {
        lemma_split_from_tokens(s.skip(1), empty);
        let r = split_from(s.skip(1), empty);
        let f = flush(current);
        assert forall|k: int| 0 <= k < split_from(s, current).len() implies is_word_token(#[trigger] split_from(s, current)[k]) by {
            if k > f.len() {
                assert(split_from(s, current)[k] == r[k - f.len() - 1]);
            } else if k == f.len() {
                assert(split_from(s, current)[k] == seq![s[0]]);
            } else {
                assert(split_from(s, current)[k] == current);
            }
        }
    } else {
        let next = current.push(s[0]);
        assert forall|i: int| 0 <= i < next.len() implies !#[trigger] spec_is_delimiter(next[i]) by {
            if i < current.len() {
                assert(next[i] == current[i]);
            }
        }
        lemma_split_from_tokens(s.skip(1), next);
        assert(split_from(s, current) == split_from(s.skip(1), next));
    }
}

/// Every word of a text is a token that split_words can produce.
pub proof fn lemma_words_are_tokens(s: Seq<char>)
    ensures
        forall|k: int| 0 <= k < words_of(s).len() ==> is_word_token(#[trigger] words_of(s)[k]),
{
    lemma_split_from_tokens(s, Seq::empty());
}

/// The distinct words, in first-seen order, hold no word twice, and hold
/// exactly the words that occur.
pub proof fn lemma_first_seen(words: Seq<Seq<char>>)
    ensures
        first_seen(words).no_duplicates(),
        forall|w: Seq<char>|
            #![trigger first_seen(words).contains(w)]
            #![trigger words.contains(w)]
            first_seen(words).contains(w) <==> words.contains(w),
        first_seen(words).len() <= words.len(),
    decreases words.len(),
{
    if words.len() > 0 {
        let prev = first_seen(words.drop_last());
        lemma_first_seen(words.drop_last());
        let last = words.last();
        assert(words[words.len() - 1] == last);
        if !prev.contains(last) {
            assert(prev.push(last)[prev.len() as int] == last);
        }
        assert forall|w: Seq<char>| first_seen(words).contains(w) <==> words.contains(w) by {
            if words.contains(w) {
                if w != last {
                    let i = choose|i: int| 0 <= i < words.len() && words[i] == w;
                    assert(words.drop_last()[i] == w);
                    assert(words.drop_last().contains(w));
                    assert(prev.contains(w));
                    let j = choose|j: int| 0 <= j < prev.len() && prev[j] == w;
                    if !prev.contains(last) {
                        assert(prev.push(last)[j] == w);
                    }
                }
            }
            if first_seen(words).contains(w) {
                if prev.contains(w) {
                    assert(words.drop_last().contains(w));
                    let i = choose|i: int| 0 <= i < words.drop_last().len() && words.drop_last()[i] == w;
                    assert(words[i] == w);
                } else {
                    let j = choose|j: int| 0 <= j < first_seen(words).len() && first_seen(words)[j] == w;
                    if j < prev.len() {
                        assert(prev[j] == w);
                    }
                    assert(w == last);
                }
            }
        }
    }
}

impl WordTokenizer {
    /// Builds the vocabulary and gives each distinct word a numeric id.
    ///
    /// Ids are assigned in the order in which the words first occur in the
    /// training text.
    pub fn build(text: &str) -> (tokenizer: Self)
        requires
            first_seen(words_of(text@)).len() <= u32::MAX,
        ensures
            tokenizer@ == first_seen(words_of(text@)),
            is_vocabulary(tokenizer@),
            forall|i: int| 0 <= i < tokenizer@.len() ==> #[trigger] word_id(tokenizer@, tokenizer@[i]) == Some(i),
    {
        let words = split_words(text);
        let ghost all = strings_view(words@);
        proof {
            lemma_words_are_tokens(text@);
        }
        let mut vocab: Vec<String> = Vec::new();
        for i in 0..words.len()
            invariant
                all == strings_view(words@),
                all == words_of(text@),
                first_seen(all).len() <= u32::MAX,
                strings_view(vocab@) == first_seen(all.take(i as int)),
        {
            proof {
                assert(all.take(i + 1).drop_last() =~= all.take(i as int));
            }
            let found = find_word(&vocab, &words[i]);
            if found.is_none() {
                let word = words[i].clone();
                let ghost before = strings_view(vocab@);
                vocab.push(word);
                assert(strings_view(vocab@) =~= before.push(all[i as int]));
            }
        }
        assert(all.take(words.len() as int) =~= all);
        proof {
            lemma_first_seen(all);
            assert forall|i: int| 0 <= i < vocab.len() implies is_word_token(#[trigger] strings_view(vocab@)[i]) by {
                assert(all.contains(strings_view(vocab@)[i]));
                let k = choose|k: int| 0 <= k < all.len() && all[k] == strings_view(vocab@)[i];
                assert(is_word_token(all[k]));
            }
        }
        let tokenizer = WordTokenizer { vocab };
        assert(is_vocabulary(tokenizer@));
        proof {
            lemma_word_ids(tokenizer@);
        }
        tokenizer
    }

    /// The word with id `id`, if the vocabulary has one.
    pub fn word(&self, id: usize) -> (w: Option<&str>)
        ensures
            match w {
                Some(s) => id < self@.len() && s@ == self@[id as int],
                None => id >= self@.len(),
            },
            is_vocabulary(self@),
    {
        proof {
            use_type_invariant(self);
        }
        if id < self.vocab.len() {
            Some(self.vocab[id].as_str())
        } else {
            None
        }
    }
}

} // verus!

verus! {

/// Whether a vocabulary entry is a single punctuation mark.
fn is_punctuation_entry(token: &String) -> (r: bool)
    ensures
        r == is_punctuation_token(token@),
{
    let t = token.as_str();
    if t.unicode_len() != 1 {
        return false;
    }
    let c = t.get_char(0);
    c == ',' || c == '.' || c == '!' || c == '?'
}

impl Tokenizer for WordTokenizer {
    /// Looks up each known word as a token id.
    ///
    /// Unknown words are skipped, since this model has no token for them.
    fn encode(&self, text: &str) -> (ids: Vec<u32>)
        ensures
            ids@ == lookup_ids(self@, words_of(text@)),
            is_vocabulary(self@),
    {
        proof {
            use_type_invariant(self);
        }
        let words = split_words(text);
        let ghost all = strings_view(words@);
        let mut ids: Vec<u32> = Vec::new();
        for i in 0..words.len()
            invariant
                all == strings_view(words@),
                strings_view(self.vocab@).no_duplicates(),
                self.vocab.len() <= u32::MAX,
                ids@ == lookup_ids(self@, all.take(i as int)),
        {
            proof {
                assert(all.take(i + 1).drop_last() =~= all.take(i as int));
                assert(all.take(i + 1).last() == all[i as int]);
            }
            match find_word(&self.vocab, &words[i]) {
                Some(id) => {
                    proof {
                        let v = strings_view(self.vocab@);
                        let w = all[i as int];
                        assert(v.contains(w));
                        assert(v[v.index_of(w)] == w);
                        assert(v.index_of(w) == id);
                    }
                    ids.push(id as u32);
                },
                None => {},
            }
        }
        assert(all.take(words.len() as int) =~= all);
        ids
    }

    /// Turns token ids into text and attaches punctuation to the previous
    /// word.
    fn decode(&self, ids: &[u32]) -> (text: String)
        ensures
            text@ == join_tokens(self@, ids@),
            is_vocabulary(self@),
    {
        proof {
            use_type_invariant(self);
        }
        let mut text = String::new();
        for i in 0..ids.len()
            invariant
                text@ == join_tokens(self@, ids@.take(i as int)),
        {
            proof {
                assert(ids@.take(i + 1).drop_last() =~= ids@.take(i as int));
            }
            let id = ids[i];
            if (id as usize) < self.vocab.len() {
                let token = &self.vocab[id as usize];
                if !text.as_str().is_empty() && !is_punctuation_entry(token) {
                    push_char(&mut text, ' ');
                }
                text.append(token.as_str());
            }
        }
        assert(ids@.take(ids.len() as int) =~= ids@);
        text
    }

    /// The number of distinct words in the vocabulary.
    fn vocab_size(&self) -> (n: usize)
        ensures
            n == self@.len(),
            is_vocabulary(self@),
    {
        proof {
            use_type_invariant(self);
        }
        self.vocab.len()
    }
}

} // verus!

verus! {

/// A vocabulary that a word tokenizer can hold: no word twice, every word a
/// token that split_words produces, and every position a 32-bit id.
pub open spec fn is_vocabulary(vocab: Seq<Seq<char>>) -> bool {
    &&& vocab.no_duplicates()
    &&& forall|i: int| 0 <= i < vocab.len() ==> is_word_token(#[trigger] vocab[i])
    &&& vocab.len() <= u32::MAX
}

/// The vocabulary entries of the ids of `ids` that have one, in order.
pub open spec fn known_tokens(vocab: Seq<Seq<char>>, ids: Seq<u32>) -> Seq<Seq<char>>
    decreases ids.len(),
{
    if ids.len() == 0 {
        Seq::empty()
    } else {
        let prev = known_tokens(vocab, ids.drop_last());
        if ids.last() < vocab.len() {
            prev.push(vocab[ids.last() as int])
        } else {
            prev
        }
    }
}

/// The words of `words` that `vocab` holds, in order.
pub open spec fn known_words(vocab: Seq<Seq<char>>, words: Seq<Seq<char>>) -> Seq<Seq<char>>
    decreases words.len(),
{
    if words.len() == 0 {
        Seq::empty()
    } else {
        let prev = known_words(vocab, words.drop_last());
        if vocab.contains(words.last()) {
            prev.push(words.last())
        } else {
            prev
        }
    }
}

/// Reading on across a delimiter finishes the word being read: the words of
/// `x + y` are those of `x` followed by those of `y` when `y` starts with
/// whitespace or punctuation.
pub proof fn lemma_split_concat(x: Seq<char>, y: Seq<char>, current: Seq<char>)
    requires
        y.len() > 0,
        spec_is_delimiter(y[0]),
    ensures
        split_from(x + y, current) == split_from(x, current) + split_from(y, Seq::empty()),
    decreases x.len(),
{
    let empty = Seq::<char>::empty();
    if x.len() == 0 {
        assert(x + y =~= y);
        assert(flush(empty) =~= Seq::<Seq<char>>::empty());
        if is_white_space(y[0]) {
            assert(split_from(y, empty) =~= split_from(y.skip(1), empty));
        } else {
            assert(split_from(y, empty) =~= seq![seq![y[0]]] + split_from(y.skip(1), empty));
        }
        assert(split_from(x + y, current) =~= split_from(x, current) + split_from(y, empty));
    } else {
        let xy = x + y;
        assert(xy[0] == x[0]);
        assert(xy.skip(1) =~= x.skip(1) + y);
        if is_white_space(x[0]) {
            lemma_split_concat(x.skip(1), y, empty);
            assert(split_from(xy, current) =~= split_from(x, current) + split_from(y, empty));
        } else if is_punctuation(x[0]) {
            lemma_split_concat(x.skip(1), y, empty);
            assert(split_from(xy, current) =~= split_from(x, current) + split_from(y, empty));
        } else {
            lemma_split_concat(x.skip(1), y, current.push(x[0]));
        }
    }
}

/// A run of characters without delimiters, read on from a started word,
/// finishes as that single word.
pub proof fn lemma_split_plain(t: Seq<char>, current: Seq<char>)
    requires
        forall|i: int| 0 <= i < t.len() ==> !#[trigger] spec_is_delimiter(t[i]),
        current.len() + t.len() > 0,
    ensures
        split_from(t, current) == seq![current + t],
    decreases t.len(),
{
    if t.len() == 0 {
        assert(current + t =~= current);
    } else {
        assert(!spec_is_delimiter(t[0]));
        assert forall|i: int| 0 <= i < t.skip(1).len() implies !#[trigger] spec_is_delimiter(t.skip(1)[i]) by {
            assert(t.skip(1)[i] == t[i + 1]);
        }
        lemma_split_plain(t.skip(1), current.push(t[0]));
        assert(current.push(t[0]) + t.skip(1) =~= current + t);
    }
}

/// A vocabulary token splits back into itself.
pub proof fn lemma_split_token(t: Seq<char>)
    requires
        is_word_token(t),
    ensures
        words_of(t) == seq![t],
{
    let empty = Seq::<char>::empty();
    if t.len() == 1 && is_punctuation(t[0]) && !is_white_space(t[0]) {
        assert(t.skip(1) =~= empty);
        assert(split_from(t, empty) =~= flush(empty) + seq![seq![t[0]]] + split_from(empty, empty));
        assert(seq![t[0]] =~= t);
    } else {
        lemma_split_plain(t, empty);
        assert(empty + t =~= t);
    }
}

/// The characters of a list of words, written one after another.
pub open spec fn concat_words(words: Seq<Seq<char>>) -> Seq<char>
    decreases words.len(),
{
    if words.len() == 0 {
        Seq::empty()
    } else {
        words[0] + concat_words(words.skip(1))
    }
}

/// `s` without its whitespace characters.
pub open spec fn without_white_space(s: Seq<char>) -> Seq<char>
    decreases s.len(),
{
    if s.len() == 0 {
        Seq::empty()
    } else {
        (if is_white_space(s[0]) {
            Seq::empty()
        } else {
            seq![s[0]]
        }) + without_white_space(s.skip(1))
    }
}

/// The words are joined with a single space between neighbours.
pub open spec fn join_with_spaces(words: Seq<Seq<char>>) -> Seq<char>
    decreases words.len(),
{
    if words.len() == 0 {
        Seq::empty()
    } else if words.len() == 1 {
        words[0]
    } else {
        join_with_spaces(words.drop_last()) + seq![' '] + words.last()
    }
}

/// Writing two lists of words one after another writes each in turn.
pub proof fn lemma_concat_words_append(a: Seq<Seq<char>>, b: Seq<Seq<char>>)
    ensures
        concat_words(a + b) == concat_words(a) + concat_words(b),
    decreases a.len(),
{
    if a.len() == 0 {
        assert(a + b =~= b);
        assert(concat_words(a) + concat_words(b) =~= concat_words(b));
    } else {
        assert((a + b).skip(1) =~= a.skip(1) + b);
        assert((a + b)[0] == a[0]);
        lemma_concat_words_append(a.skip(1), b);
        assert(concat_words(a + b) =~= concat_words(a) + concat_words(b));
    }
}

/// A single word, written out, is that word.
proof fn lemma_concat_words_one(w: Seq<char>)
    ensures
        concat_words(seq![w]) == w,
{
    let none = Seq::<Seq<char>>::empty();
    assert(seq![w].skip(1) =~= none);
    assert(concat_words(none) == Seq::<char>::empty());
    assert(concat_words(seq![w]) =~= w);
}

/// Reading on from a started word, the words written one after another are
/// the started word followed by the rest of the text without whitespace.
proof fn lemma_split_from_concat(s: Seq<char>, current: Seq<char>)
    ensures
        concat_words(split_from(s, current)) == current + without_white_space(s),
    decreases s.len(),
{
    let empty = Seq::<char>::empty();
    let f = flush(current);
    assert(concat_words(f) =~= current) by {
        if current.len() > 0 {
            lemma_concat_words_one(current);
        } else {
            assert(concat_words(Seq::<Seq<char>>::empty()) == Seq::<char>::empty());
        }
    }
    if s.len() == 0 {
        assert(current + without_white_space(s) =~= current);
    } else if is_white_space(s[0]) {
        lemma_split_from_concat(s.skip(1), empty);
        lemma_concat_words_append(f, split_from(s.skip(1), empty));
        assert(concat_words(split_from(s, current)) =~= current + without_white_space(s));
    } else if is_punctuation(s[0]) {
        let mark = seq![seq![s[0]]];
        lemma_split_from_concat(s.skip(1), empty);
        lemma_concat_words_append(f + mark, split_from(s.skip(1), empty));
        lemma_concat_words_append(f, mark);
        lemma_concat_words_one(seq![s[0]]);
        assert(concat_words(split_from(s, current)) =~= current + without_white_space(s));
    } else {
        lemma_split_from_concat(s.skip(1), current.push(s[0]));
        assert(current.push(s[0]) + without_white_space(s.skip(1)) =~= current + without_white_space(s));
    }
}

/// The words of a text, written one after another, are the text without
/// its whitespace: splitting drops whitespace and keeps every other
/// character, in order.
pub proof fn lemma_words_concat(text: Seq<char>)
    ensures
        concat_words(words_of(text)) == without_white_space(text),
{
    lemma_split_from_concat(text, Seq::empty());
    assert(Seq::<char>::empty() + without_white_space(text) =~= without_white_space(text));
}

/// Words that split_words can produce, joined with single spaces, split
/// back into the same words.
pub proof fn lemma_join_with_spaces_then_split(words: Seq<Seq<char>>)
    requires
        forall|i: int| 0 <= i < words.len() ==> is_word_token(#[trigger] words[i]),
    ensures
        words_of(join_with_spaces(words)) == words,
    decreases words.len(),
{
    let empty = Seq::<char>::empty();
    if words.len() == 0 {
        assert(words_of(empty) =~= Seq::<Seq<char>>::empty());
        assert(words =~= Seq::<Seq<char>>::empty());
    } else if words.len() == 1 {
        assert(is_word_token(words[0]));
        lemma_split_token(words[0]);
        assert(words =~= seq![words[0]]);
    } else {
        let front = words.drop_last();
        let t = words.last();
        assert forall|i: int| 0 <= i < front.len() implies is_word_token(#[trigger] front[i]) by {
            assert(front[i] == words[i]);
        }
        lemma_join_with_spaces_then_split(front);
        assert(is_word_token(words[words.len() - 1]));
        lemma_split_token(t);
        let prev = join_with_spaces(front);
        let y = seq![' '] + t;
        assert(y[0] == ' ');
        lemma_split_concat(prev, y, empty);
        assert(prev + seq![' '] + t =~= prev + y);
        assert(y.skip(1) =~= t);
        assert(split_from(y, empty) =~= flush(empty) + split_from(t, empty));
        assert(words_of(join_with_spaces(words)) =~= words);
    }
}

/// Splitting a text, joining its words with single spaces and splitting
/// again gives the same words: splitting only normalizes whitespace.
pub proof fn lemma_split_join_split(text: Seq<char>)
    ensures
        words_of(join_with_spaces(words_of(text))) == words_of(text),
{
    lemma_words_are_tokens(text);
    lemma_join_with_spaces_then_split(words_of(text));
}

/// In a vocabulary each word's id is its position, so looking up the word
/// at position `i` gives id `i`.
pub proof fn lemma_word_ids(vocab: Seq<Seq<char>>)
    requires
        is_vocabulary(vocab),
    ensures
        forall|i: int| 0 <= i < vocab.len() ==> #[trigger] word_id(vocab, vocab[i]) == Some(i),
{
    assert forall|i: int| 0 <= i < vocab.len() implies #[trigger] word_id(vocab, vocab[i]) == Some(i) by {
        assert(vocab.contains(vocab[i]));
        let j = vocab.index_of(vocab[i]);
        assert(0 <= j < vocab.len() && vocab[j] == vocab[i]);
    }
}

/// Splitting the text that `join_tokens` writes gives back the tokens of
/// the known ids.
pub proof fn lemma_join_then_split(vocab: Seq<Seq<char>>, ids: Seq<u32>)
    requires
        is_vocabulary(vocab),
    ensures
        words_of(join_tokens(vocab, ids)) == known_tokens(vocab, ids),
    decreases ids.len(),
{
    let empty = Seq::<char>::empty();
    if ids.len() == 0 {
        assert(words_of(empty) =~= Seq::<Seq<char>>::empty());
    } else {
        let prev = join_tokens(vocab, ids.drop_last());
        lemma_join_then_split(vocab, ids.drop_last());
        let id = ids.last();
        if id < vocab.len() {
            let t = vocab[id as int];
            assert(is_word_token(t));
            lemma_split_token(t);
            if prev.len() > 0 && !is_punctuation_token(t) {
                let y = seq![' '] + t;
                assert(y[0] == ' ');
                lemma_split_concat(prev, y, empty);
                assert(prev + seq![' '] + t =~= prev + y);
                assert(y.skip(1) =~= t);
                assert(split_from(y, empty) =~= flush(empty) + split_from(t, empty));
                assert(words_of(join_tokens(vocab, ids)) =~= known_tokens(vocab, ids));
            } else if prev.len() == 0 {
                assert(prev + t =~= t);
                assert(known_tokens(vocab, ids.drop_last()) =~= Seq::<Seq<char>>::empty());
                assert(words_of(join_tokens(vocab, ids)) =~= known_tokens(vocab, ids));
            } else {
                assert(t[0] == t[0]);
                lemma_split_concat(prev, t, empty);
                assert(words_of(join_tokens(vocab, ids)) =~= known_tokens(vocab, ids));
            }
        }
    }
}

/// Looking words up and spelling the ids out again keeps exactly the known
/// words, and every id found is a valid position.
pub proof fn lemma_lookup_then_spell(vocab: Seq<Seq<char>>, words: Seq<Seq<char>>)
    requires
        is_vocabulary(vocab),
    ensures
        known_tokens(vocab, lookup_ids(vocab, words)) == known_words(vocab, words),
        forall|i: int| 0 <= i < lookup_ids(vocab, words).len() ==> #[trigger] lookup_ids(vocab, words)[i] < vocab.len(),
    decreases words.len(),
{
    if words.len() > 0 {
        lemma_lookup_then_spell(vocab, words.drop_last());
        let w = words.last();
        let prev = lookup_ids(vocab, words.drop_last());
        if vocab.contains(w) {
            let i = vocab.index_of(w);
            assert(0 <= i < vocab.len() && vocab[i] == w);
            let ids = prev.push(i as u32);
            assert(ids.drop_last() =~= prev);
            assert(ids.last() == i as u32);
        }
    }
}

/// Decoding the encoding of a text gives a text with the same known words:
/// splitting it yields exactly the words of the original that the
/// vocabulary holds, and so all of its words when the vocabulary knows them
/// all.
pub proof fn lemma_encode_decode_roundtrip(vocab: Seq<Seq<char>>, text: Seq<char>)
    requires
        is_vocabulary(vocab),
    ensures
        words_of(join_tokens(vocab, lookup_ids(vocab, words_of(text)))) == known_words(vocab, words_of(text)),
        (forall|i: int| 0 <= i < words_of(text).len() ==> vocab.contains(#[trigger] words_of(text)[i]))
            ==> words_of(join_tokens(vocab, lookup_ids(vocab, words_of(text)))) == words_of(text),
{
    lemma_lookup_then_spell(vocab, words_of(text));
    lemma_join_then_split(vocab, lookup_ids(vocab, words_of(text)));
    if forall|i: int| 0 <= i < words_of(text).len() ==> vocab.contains(#[trigger] words_of(text)[i]) {
        lemma_known_words_all(vocab, words_of(text));
    }
}

/// When the vocabulary holds every word of `words`, keeping the known words
/// keeps them all.
pub proof fn lemma_known_words_all(vocab: Seq<Seq<char>>, words: Seq<Seq<char>>)
    requires
        forall|i: int| 0 <= i < words.len() ==> vocab.contains(#[trigger] words[i]),
    ensures
        known_words(vocab, words) == words,
    decreases words.len(),
{
    if words.len() > 0 {
        assert(vocab.contains(words[words.len() - 1]));
        lemma_known_words_all(vocab, words.drop_last());
        assert(words.drop_last().push(words.last()) =~= words);
    }
}

} // verus!

verus! {

/// One of the four punctuation marks `,` `.` `!` `?`, written out.
pub open spec fn is_mark(c: char) -> bool {
    c == ',' || c == '.' || c == '!' || c == '?'
}

/// Decoding one more id: an unknown id adds nothing; a single punctuation
/// mark `,` `.` `!` `?` is written straight after what came before, with no
/// space; any other word is written after a single space, or alone at the
/// start.
pub proof fn lemma_decode_step(vocab: Seq<Seq<char>>, ids: Seq<u32>, id: u32)
    ensures
        id >= vocab.len() ==> join_tokens(vocab, ids.push(id)) == join_tokens(vocab, ids),
        id < vocab.len() && vocab[id as int].len() == 1 && is_mark(vocab[id as int][0]) ==> join_tokens(
            vocab,
            ids.push(id),
        ) == join_tokens(vocab, ids) + vocab[id as int],
        id < vocab.len() && !(vocab[id as int].len() == 1 && is_mark(vocab[id as int][0])) && join_tokens(
            vocab,
            ids,
        ).len() > 0 ==> join_tokens(vocab, ids.push(id)) == join_tokens(vocab, ids) + seq![' '] + vocab[id as int],
        id < vocab.len() && join_tokens(vocab, ids).len() == 0 ==> join_tokens(vocab, ids.push(id))
            == vocab[id as int],
{
    let n = ids.push(id);
    assert(n.drop_last() =~= ids);
    assert(n.last() == id);
    if id < vocab.len() && join_tokens(vocab, ids).len() == 0 {
        assert(join_tokens(vocab, ids) + vocab[id as int] =~= vocab[id as int]);
    }
}

/// Reading more text never changes the ids already given: the distinct
/// words of a prefix of the words are a prefix of the distinct words of all
/// of them, and a word not seen before gets the next id.
pub proof fn lemma_first_seen_prefix(words: Seq<Seq<char>>, k: int)
    requires
        0 <= k <= words.len(),
    ensures
        first_seen(words.take(k)).len() <= first_seen(words).len(),
        first_seen(words).take(first_seen(words.take(k)).len() as int) == first_seen(words.take(k)),
    decreases words.len() - k,
{
    if k == words.len() {
        assert(words.take(k) =~= words);
        assert(first_seen(words).take(first_seen(words).len() as int) =~= first_seen(words));
    } else {
        lemma_first_seen_prefix(words, k + 1);
        let a = first_seen(words.take(k));
        let b = first_seen(words.take(k + 1));
        assert(words.take(k + 1).drop_last() =~= words.take(k));
        assert(b == a || b == a.push(words[k]));
        assert(b.take(a.len() as int) =~= a);
        assert(first_seen(words).take(a.len() as int) =~= first_seen(words).take(b.len() as int).take(a.len() as int));
    }
}

/// A new word is given the next id, after every id given so far; a word
/// seen before keeps its id and adds none.
pub proof fn lemma_first_seen_push(words: Seq<Seq<char>>, w: Seq<char>)
    ensures
        !words.contains(w) ==> first_seen(words.push(w)) == first_seen(words).push(w),
        words.contains(w) ==> first_seen(words.push(w)) == first_seen(words),
{
    let n = words.push(w);
    assert(n.drop_last() =~= words);
    lemma_first_seen(words);
}

/// A punctuation mark `,` `.` `!` `?` becomes a token of its own, and a run
/// of characters without whitespace or punctuation after it is read whole as
/// the next word, whatever text comes before.
pub proof fn lemma_mark_then_word(x: Seq<char>, p: char, t: Seq<char>)
    requires
        is_mark(p),
        t.len() > 0,
        forall|i: int| 0 <= i < t.len() ==> !#[trigger] spec_is_delimiter(t[i]),
    ensures
        words_of(x + seq![p] + t) == words_of(x) + seq![seq![p], t],
{
    let empty = Seq::<char>::empty();
    let y = seq![p] + t;
    assert(y[0] == p);
    assert(spec_is_delimiter(p));
    lemma_split_concat(x, y, empty);
    assert(x + seq![p] + t =~= x + y);
    assert(y.skip(1) =~= t);
    lemma_split_plain(t, empty);
    assert(empty + t =~= t);
    assert(!is_white_space(p));
    assert(split_from(y, empty) =~= flush(empty) + seq![seq![p]] + split_from(t, empty));
    assert(words_of(y) =~= seq![seq![p], t]);
}

} // verus!
