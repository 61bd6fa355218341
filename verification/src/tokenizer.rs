use vstd::prelude::*;

verus! {

/// Turns text into numeric token ids and back.
///
/// Each implementation states in its own `ensures` what it returns.
pub trait Tokenizer {
    /// Turns text into the numeric token ids the model works on.
    fn encode(&self, text: &str) -> Vec<u32>;

    /// Turns token ids back into readable text.
    fn decode(&self, ids: &[u32]) -> String;

    /// How many different tokens the model can predict.
    fn vocab_size(&self) -> usize;
}

/// A token id together with the half-open span of the text it came from.
#[derive(Debug, PartialEq, Eq, Structural, Clone, Copy)]
pub struct Token {
    id: u32,
    from_inclusive: usize,
    to_exclusive: usize,
}

impl Token {
    /// The token's id.
    pub closed spec fn spec_id(self) -> u32 {
        self.id
    }

    /// Where the token's span starts in the original text.
    pub closed spec fn spec_from(self) -> usize {
        self.from_inclusive
    }

    /// Where the token's span ends (exclusive) in the original text.
    pub closed spec fn spec_to(self) -> usize {
        self.to_exclusive
    }

    /// Creates a token with an id and a half-open span in the original text.
    pub fn new(id: u32, from_inclusive: usize, to_exclusive: usize) -> (token: Self)
        ensures
            token.spec_id() == id,
            token.spec_from() == from_inclusive,
            token.spec_to() == to_exclusive,
    {
        Token { id, from_inclusive, to_exclusive }
    }
}

} // verus!
