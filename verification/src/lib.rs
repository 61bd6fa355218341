//! A small next-token language model toolkit: word and byte-pair tokenizers,
//! the sliding windows that turn a token stream into training examples, and
//! the integer bookkeeping around training and prediction.

pub mod arguments;
pub mod bpe_tokenizer;
pub mod multi_train;
pub mod pair_table;
pub mod sliding_window;
pub mod text;
pub mod training;
pub mod tokenizer;
pub mod word_tokenizer;
