use crate::word_tokenizer::strings_view;
use vstd::prelude::*;
use vstd::string::StringExecFns;

verus! {

/// The seed used for the model's random start weights unless one is given.
pub const DEFAULT_SEED: u64 = 42;

/// Which tokenizer turns the training text into tokens.
#[derive(Debug, Clone, Copy, PartialEq, Eq, Structural)]
pub enum TokenizerKind {
    Word,
    Bpe,
}

impl Default for TokenizerKind {
    /// The word tokenizer.
    fn default() -> (kind: Self)
        ensures
            kind == TokenizerKind::Word,
    {
        TokenizerKind::Word
    }
}

/// The message for a tokenizer name that is not supported.
pub open spec fn invalid_tokenizer_message(value: Seq<char>) -> Seq<char> {
    "Invalid tokenizer: "@ + value + ". Expected 'word' or 'bpe'"@
}

impl TokenizerKind {
    /// The name the command line uses for this tokenizer.
    pub fn name(&self) -> (name: &'static str)
        ensures
            name@ == match *self {
                TokenizerKind::Word => "word"@,
                TokenizerKind::Bpe => "bpe"@,
            },
    {
        match self {
            TokenizerKind::Word => "word",
            TokenizerKind::Bpe => "bpe",
        }
    }

    /// Reads a tokenizer name given on the command line: `word` or `bpe`.
    pub fn from_cli_value(value: &str) -> (kind: Result<TokenizerKind, String>)
        ensures
            value@ == "word"@ ==> kind == Ok::<TokenizerKind, String>(TokenizerKind::Word),
            value@ == "bpe"@ ==> kind == Ok::<TokenizerKind, String>(TokenizerKind::Bpe),
            value@ != "word"@ && value@ != "bpe"@ ==> kind is Err && kind->Err_0@ == invalid_tokenizer_message(value@),
    {
        proof {
            reveal_strlit("word");
            reveal_strlit("bpe");
            assert("word"@.len() == 4 && "bpe"@.len() == 3);
        }
        let given = value.to_owned();
        if given == "word".to_owned() {
            Ok(TokenizerKind::Word)
        } else if given == "bpe".to_owned() {
            Ok(TokenizerKind::Bpe)
        } else {
            let mut message = "Invalid tokenizer: ".to_owned();
            message.append(value);
            message.append(". Expected 'word' or 'bpe'");
            Err(message)
        }
    }
}

impl std::str::FromStr for TokenizerKind {
    type Err = String;

    /// Reads a tokenizer name as `from_cli_value` does.
    fn from_str(value: &str) -> (kind: Result<Self, Self::Err>)
        ensures
            value@ == "word"@ ==> kind == Ok::<TokenizerKind, String>(TokenizerKind::Word),
            value@ == "bpe"@ ==> kind == Ok::<TokenizerKind, String>(TokenizerKind::Bpe),
            value@ != "word"@ && value@ != "bpe"@ ==> kind is Err && kind->Err_0@ == invalid_tokenizer_message(value@),
    {
        TokenizerKind::from_cli_value(value)
    }
}

/// Whether `c` is one of the ASCII digits `0` to `9`.
pub open spec fn is_ascii_digit(c: char) -> bool {
    '0' <= c && c <= '9'
}

/// Whether every character of `digits` is an ASCII digit.
pub open spec fn all_ascii_digits(digits: Seq<char>) -> bool {
    forall|i: int| 0 <= i < digits.len() ==> #[trigger] is_ascii_digit(digits[i])
}

/// The number that a run of ASCII digits writes in base ten.
pub open spec fn decimal_value(digits: Seq<char>) -> int
    decreases digits.len(),
{
    if digits.len() == 0 {
        0
    } else {
        decimal_value(digits.drop_last()) * 10 + (digits.last() as int - '0' as int)
    }
}

/// The digits of an unsigned number: the text without one leading `+`.
pub open spec fn unsigned_digits(text: Seq<char>) -> Seq<char> {
    if text.len() > 0 && text[0] == '+' {
        text.skip(1)
    } else {
        text
    }
}

/// The unsigned number that `text` writes, as Rust reads an unsigned
/// integer: an optional `+` and at least one ASCII digit, nothing else, and
/// a value of at most `max`.
pub open spec fn parsed_unsigned(text: Seq<char>, max: int) -> Option<int> {
    let digits = unsigned_digits(text);
    if digits.len() > 0 && all_ascii_digits(digits) && decimal_value(digits) <= max {
        Some(decimal_value(digits))
    } else {
        None
    }
}

/// A run of digits writes a number at least as large as any of its prefixes.
pub proof fn lemma_decimal_prefix_le(digits: Seq<char>, k: int)
    requires
        all_ascii_digits(digits),
        0 <= k <= digits.len(),
    ensures
        0 <= decimal_value(digits.take(k)) <= decimal_value(digits),
    decreases digits.len(),
{
    if digits.len() == 0 {
        assert(digits.take(k) =~= digits);
    } else {
        let front = digits.drop_last();
        assert(all_ascii_digits(front)) by {
            assert forall|i: int| 0 <= i < front.len() implies #[trigger] is_ascii_digit(front[i]) by {
                assert(is_ascii_digit(digits[i]));
            }
        }
        assert(is_ascii_digit(digits[digits.len() - 1]));
        if k == digits.len() {
            assert(digits.take(k) =~= digits);
            lemma_decimal_prefix_le(front, 0);
            assert(front.take(0) =~= Seq::<char>::empty());
        } else {
            lemma_decimal_prefix_le(front, k);
            assert(front.take(k) =~= digits.take(k));
        }
    }
}

/// Reads an unsigned decimal number of at most `max`, as Rust's `parse` reads
/// an unsigned integer.
pub fn parse_unsigned(text: &str, max: u64) -> (value: Option<u64>)
    ensures
        match value {
            Some(v) => parsed_unsigned(text@, max as int) == Some(v as int),
            None => parsed_unsigned(text@, max as int) is None,
        },
{
    let ghost digits = unsigned_digits(text@);
    let n = text.unicode_len();
    let mut start: usize = 0;
    if n > 0 && text.get_char(0) == '+' {
        start = 1;
    }
    assert(digits =~= text@.skip(start as int));
    if start == n {
        return None;
    }
    let mut value: u64 = 0;
    let mut i = start;
    assert(digits.take(0) =~= Seq::<char>::empty());
    while i < n
        invariant
            start <= i <= n,
            n == text@.len(),
            start < n,
            digits == text@.skip(start as int),
            digits == unsigned_digits(text@),
            all_ascii_digits(digits.take(i - start)),
            value == decimal_value(digits.take(i - start)),
            value <= max,
        decreases n - i,
    {
        let c = text.get_char(i);
        assert(c == digits[i - start]);
        if c < '0' || c > '9' {
            assert(!is_ascii_digit(digits[i - start]));
            return None;
        }
        let d = (c as u32 - '0' as u32) as u64;
        let ghost prefix = digits.take(i - start + 1);
        assert(prefix.drop_last() =~= digits.take(i - start));
        assert(all_ascii_digits(prefix)) by {
            assert forall|j: int| 0 <= j < prefix.len() implies #[trigger] is_ascii_digit(prefix[j]) by {
                if j < prefix.len() - 1 {
                    assert(is_ascii_digit(digits.take(i - start)[j]));
                }
            }
        }
        let next: u128 = value as u128 * 10 + d as u128;
        assert(next == decimal_value(prefix));
        if next > max as u128 {
            proof {
                if all_ascii_digits(digits) {
                    lemma_decimal_prefix_le(digits, i - start + 1);
                }
            }
            return None;
        }
        value = next as u64;
        i = i + 1;
    }
    assert(digits.take(n - start) =~= digits);
    Some(value)
}

/// `text` begins with `prefix`.
pub open spec fn has_prefix(text: Seq<char>, prefix: Seq<char>) -> bool {
    prefix.len() <= text.len() && text.take(prefix.len() as int) == prefix
}

/// The rest of `text` after `prefix`, when `text` begins with it.
fn strip_prefix<'a>(text: &'a str, prefix: &str) -> (rest: Option<&'a str>)
    ensures
        match rest {
            Some(r) => has_prefix(text@, prefix@) && r@ == text@.skip(prefix@.len() as int),
            None => !has_prefix(text@, prefix@),
        },
{
    let n = text.unicode_len();
    let m = prefix.unicode_len();
    if m > n {
        return None;
    }
    let mut i: usize = 0;
    while i < m
        invariant
            i <= m <= n,
            n == text@.len(),
            m == prefix@.len(),
            text@.take(i as int) == prefix@.take(i as int),
        decreases m - i,
    {
        if text.get_char(i) != prefix.get_char(i) {
            assert(text@.take(m as int)[i as int] != prefix@[i as int]);
            return None;
        }
        assert(text@.take(i + 1) =~= text@.take(i as int).push(text@[i as int]));
        assert(prefix@.take(i + 1) =~= prefix@.take(i as int).push(prefix@[i as int]));
        i = i + 1;
    }
    assert(prefix@.take(m as int) =~= prefix@);
    Some(text.substring_char(m, n))
}

/// What the command line asks for, with each string as its characters.
pub struct ArgsModel {
    pub tokenizer: TokenizerKind,
    pub vocab_size: u32,
    pub epochs: usize,
    pub seq_len: usize,
    pub d_model: usize,
    pub learning_rate: Option<Seq<char>>,
    pub seed: u64,
    pub trace: bool,
    pub file_paths: Seq<Seq<char>>,
    pub prompt: Seq<char>,
}

/// The settings read from the command line; `trace` asks for the best
/// candidates of the first generation steps to be shown.
///
/// The learning rate is kept as the text that followed `-learning-rate=`
/// (the last one given); turning it into a number is left to the caller.
#[derive(Debug, PartialEq)]
pub struct Args {
    pub tokenizer: TokenizerKind,
    pub vocab_size: u32,
    pub epochs: usize,
    pub seq_len: usize,
    pub d_model: usize,
    pub learning_rate: Option<String>,
    pub seed: u64,
    pub trace: bool,
    pub file_paths: Vec<String>,
    pub prompt: String,
}

impl View for Args {
    type V = ArgsModel;

    open spec fn view(&self) -> ArgsModel {
        ArgsModel {
            tokenizer: self.tokenizer,
            vocab_size: self.vocab_size,
            epochs: self.epochs,
            seq_len: self.seq_len,
            d_model: self.d_model,
            learning_rate: match self.learning_rate {
                Some(t) => Some(t@),
                None => None,
            },
            seed: self.seed,
            trace: self.trace,
            file_paths: strings_view(self.file_paths@),
            prompt: self.prompt@,
        }
    }
}

/// Why a command line was refused, with each string as its characters.
pub enum ArgsProblem {
    MissingArguments,
    InvalidTokenizer(Seq<char>),
    UnknownOption(Seq<char>),
    NoTrainingFiles,
}

/// Why a command line was refused.
#[derive(Debug, PartialEq)]
pub enum ArgsError {
    /// Nothing was given at all; the caller shows how to use the program.
    MissingArguments,
    /// `-tokenizer=` named no known tokenizer; holds the message to show.
    InvalidTokenizer(String),
    /// An argument starting with `-` is no known option; holds the argument.
    UnknownOption(String),
    /// No training file was named.
    NoTrainingFiles,
}

impl View for ArgsError {
    type V = ArgsProblem;

    open spec fn view(&self) -> ArgsProblem {
        match self {
            ArgsError::MissingArguments => ArgsProblem::MissingArguments,
            ArgsError::InvalidTokenizer(m) => ArgsProblem::InvalidTokenizer(m@),
            ArgsError::UnknownOption(a) => ArgsProblem::UnknownOption(a@),
            ArgsError::NoTrainingFiles => ArgsProblem::NoTrainingFiles,
        }
    }
}

/// The settings before any option is read: the word tokenizer, a target
/// vocabulary of 256, 100 epochs, a context of 3 tokens, 8 dimensions, the
/// default learning rate, the default seed and no trace.
pub open spec fn default_args() -> ArgsModel {
    ArgsModel {
        tokenizer: TokenizerKind::Word,
        vocab_size: 256,
        epochs: 100,
        seq_len: 3,
        d_model: 8,
        learning_rate: None,
        seed: DEFAULT_SEED,
        trace: false,
        file_paths: Seq::empty(),
        prompt: Seq::empty(),
    }
}

/// The tokenizer that `name` names on the command line.
pub open spec fn tokenizer_named(name: Seq<char>) -> Option<TokenizerKind> {
    if name == "word"@ {
        Some(TokenizerKind::Word)
    } else if name == "bpe"@ {
        Some(TokenizerKind::Bpe)
    } else {
        None
    }
}

/// The number that `text` writes if it is at most `max`, else `default`.
pub open spec fn unsigned_or(text: Seq<char>, max: int, default: int) -> int {
    match parsed_unsigned(text, max) {
        Some(v) => v,
        None => default,
    }
}

/// The settings after one more argument is read: an option sets its value
/// (a number that does not read falls back to the option's default),
/// `-trace` asks for the prediction trace, and any other argument that does
/// not start with `-` is added to the positional arguments, kept in
/// `file_paths` while reading.
pub open spec fn apply_arg(m: ArgsModel, arg: Seq<char>) -> Result<ArgsModel, ArgsProblem> {
    if has_prefix(arg, "-tokenizer="@) {
        let name = arg.skip("-tokenizer="@.len() as int);
        match tokenizer_named(name) {
            Some(k) => Ok(ArgsModel { tokenizer: k, ..m }),
            None => Err(ArgsProblem::InvalidTokenizer(invalid_tokenizer_message(name))),
        }
    } else if has_prefix(arg, "-vocab="@) {
        let v = unsigned_or(arg.skip("-vocab="@.len() as int), u32::MAX as int, 256);
        Ok(ArgsModel { vocab_size: v as u32, ..m })
    } else if has_prefix(arg, "-epochs="@) {
        let v = unsigned_or(arg.skip("-epochs="@.len() as int), usize::MAX as int, 100);
        Ok(ArgsModel { epochs: v as usize, ..m })
    } else if has_prefix(arg, "-seq-len="@) {
        let v = unsigned_or(arg.skip("-seq-len="@.len() as int), usize::MAX as int, 3);
        Ok(ArgsModel { seq_len: v as usize, ..m })
    } else if has_prefix(arg, "-d-model="@) {
        let v = unsigned_or(arg.skip("-d-model="@.len() as int), usize::MAX as int, 8);
        Ok(ArgsModel { d_model: v as usize, ..m })
    } else if has_prefix(arg, "-learning-rate="@) {
        Ok(ArgsModel { learning_rate: Some(arg.skip("-learning-rate="@.len() as int)), ..m })
    } else if has_prefix(arg, "-seed="@) {
        let v = unsigned_or(arg.skip("-seed="@.len() as int), u64::MAX as int, DEFAULT_SEED as int);
        Ok(ArgsModel { seed: v as u64, ..m })
    } else if arg == "-trace"@ {
        Ok(ArgsModel { trace: true, ..m })
    } else if arg.len() > 0 && arg[0] == '-' {
        Err(ArgsProblem::UnknownOption(arg))
    } else {
        Ok(ArgsModel { file_paths: m.file_paths.push(arg), ..m })
    }
}

/// The number that `text` writes if it is at most `max`, else `default`.
fn unsigned_or_default(text: &str, max: u64, default: u64) -> (v: u64)
    requires
        default <= max,
    ensures
        v == unsigned_or(text@, max as int, default as int),
        v <= max,
{
    match parse_unsigned(text, max) {
        Some(v) => v,
        None => default,
    }
}

/// Reads one more argument into `args`, as `apply_arg` says.
fn read_arg(args: &mut Args, arg: &String) -> (r: Result<(), ArgsError>)
    ensures
        match r {
            Ok(_) => apply_arg(old(args)@, arg@) == Ok::<ArgsModel, ArgsProblem>(final(args)@),
            Err(e) => apply_arg(old(args)@, arg@) == Err::<ArgsModel, ArgsProblem>(e@),
        },
{
    let text = arg.as_str();
    if let Some(name) = strip_prefix(text, "-tokenizer=") {
        match TokenizerKind::from_cli_value(name) {
            Ok(kind) => {
                args.tokenizer = kind;
                Ok(())
            },
            Err(message) => Err(ArgsError::InvalidTokenizer(message)),
        }
    } else if let Some(value) = strip_prefix(text, "-vocab=") {
        args.vocab_size = unsigned_or_default(value, 0xffff_ffffu64, 256) as u32;
        Ok(())
    } else if let Some(value) = strip_prefix(text, "-epochs=") {
        args.epochs = unsigned_or_default(value, usize::MAX as u64, 100) as usize;
        Ok(())
    } else if let Some(value) = strip_prefix(text, "-seq-len=") {
        args.seq_len = unsigned_or_default(value, usize::MAX as u64, 3) as usize;
        Ok(())
    } else if let Some(value) = strip_prefix(text, "-d-model=") {
        args.d_model = unsigned_or_default(value, usize::MAX as u64, 8) as usize;
        Ok(())
    } else if let Some(value) = strip_prefix(text, "-learning-rate=") {
        args.learning_rate = Some(value.to_owned());
        Ok(())
    } else if let Some(value) = strip_prefix(text, "-seed=") {
        args.seed = unsigned_or_default(value, u64::MAX, DEFAULT_SEED);
        Ok(())
    } else if *arg == "-trace".to_owned() {
        args.trace = true;
        Ok(())
    } else if text.unicode_len() > 0 && text.get_char(0) == '-' {
        Err(ArgsError::UnknownOption(arg.clone()))
    } else {
        let ghost before = args.file_paths@;
        args.file_paths.push(arg.clone());
        assert(strings_view(args.file_paths@) =~= strings_view(before).push(arg@));
        Ok(())
    }
}

/// The settings after reading every argument in order, stopping at the first
/// one that is refused.
pub open spec fn read_args(args: Seq<Seq<char>>) -> Result<ArgsModel, ArgsProblem>
    decreases args.len(),
{
    if args.len() == 0 {
        Ok(default_args())
    } else {
        match read_args(args.drop_last()) {
            Ok(m) => apply_arg(m, args.last()),
            Err(e) => Err(e),
        }
    }
}

/// What a command line (without the program's name) asks for: at least one
/// argument is needed, the options are read in order, and of the positional
/// arguments the last is the prompt and the others are the training files.
/// At least one positional argument is needed.
pub open spec fn parsed_args(args: Seq<Seq<char>>) -> Result<ArgsModel, ArgsProblem> {
    if args.len() == 0 {
        Err(ArgsProblem::MissingArguments)
    } else {
        match read_args(args) {
            Err(e) => Err(e),
            Ok(m) => if m.file_paths.len() == 0 {
                Err(ArgsProblem::NoTrainingFiles)
            } else {
                Ok(ArgsModel { file_paths: m.file_paths.drop_last(), prompt: m.file_paths.last(), ..m })
            },
        }
    }
}

/// Reads the command-line arguments that follow the program's name.
pub fn parse_arg_list(args: &[String]) -> (r: Result<Args, ArgsError>)
    ensures
        match r {
            Ok(a) => parsed_args(strings_view(args@)) == Ok::<ArgsModel, ArgsProblem>(a@),
            Err(e) => parsed_args(strings_view(args@)) == Err::<ArgsModel, ArgsProblem>(e@),
        },
{
    let ghost all = strings_view(args@);
    if args.len() == 0 {
        return Err(ArgsError::MissingArguments);
    }
    let mut parsed = Args {
        tokenizer: TokenizerKind::Word,
        vocab_size: 256,
        epochs: 100,
        seq_len: 3,
        d_model: 8,
        learning_rate: None,
        seed: DEFAULT_SEED,
        trace: false,
        file_paths: Vec::new(),
        prompt: String::new(),
    };
    assert(parsed@ =~= default_args()) by {
        assert(strings_view(parsed.file_paths@) =~= Seq::<Seq<char>>::empty());
    }
    assert(all.take(0) =~= Seq::<Seq<char>>::empty());
    for i in 0..args.len()
        invariant
            all == strings_view(args@),
            read_args(all.take(i as int)) == Ok::<ArgsModel, ArgsProblem>(parsed@),
            parsed@.prompt == Seq::<char>::empty(),
    {
        assert(all.take(i + 1).drop_last() =~= all.take(i as int));
        match read_arg(&mut parsed, &args[i]) {
            Ok(_) => {},
            Err(e) => {
                proof {
                    lemma_read_args_stops(all, i + 1);
                }
                return Err(e);
            },
        }
    }
    assert(all.take(args.len() as int) =~= all);
    if parsed.file_paths.len() == 0 {
        return Err(ArgsError::NoTrainingFiles);
    }
    let ghost before = parsed.file_paths@;
    match parsed.file_paths.pop() {
        Some(prompt) => {
            parsed.prompt = prompt;
        },
        None => {},
    }
    assert(strings_view(parsed.file_paths@) =~= strings_view(before).drop_last());
    Ok(parsed)
}

/// Once an argument is refused, reading more arguments gives the same refusal.
pub proof fn lemma_read_args_stops(args: Seq<Seq<char>>, k: int)
    requires
        0 <= k <= args.len(),
        read_args(args.take(k)) is Err,
    ensures
        read_args(args) == read_args(args.take(k)),
    decreases args.len() - k,
{
    if k < args.len() {
        assert(args.take(k + 1).drop_last() =~= args.take(k));
        lemma_read_args_stops(args, k + 1);
    } else {
        assert(args.take(k) =~= args);
    }
}

} // verus!

verus! {

/// An argument that does not start with `-` is positional.
pub open spec fn is_positional(arg: Seq<char>) -> bool {
    !(arg.len() > 0 && arg[0] == '-')
}

/// After any arguments that were read, `-tokenizer=word` selects the word
/// tokenizer and `-tokenizer=bpe` the byte-pair tokenizer, leaving every
/// other setting as it was; any other name is refused with the message that
/// names it. A positional argument leaves the tokenizer as it was.
pub proof fn lemma_tokenizer_option(args: Seq<Seq<char>>, name: Seq<char>, positional: Seq<char>)
    requires
        read_args(args) is Ok,
        is_positional(positional),
    ensures
        ({
            let m = read_args(args)->Ok_0;
            let r = read_args(args.push("-tokenizer="@ + name));
            &&& name == "word"@ ==> r is Ok && r->Ok_0 == ArgsModel { tokenizer: TokenizerKind::Word, ..m }
            &&& name == "bpe"@ ==> r is Ok && r->Ok_0 == ArgsModel { tokenizer: TokenizerKind::Bpe, ..m }
            &&& name != "word"@ && name != "bpe"@ ==> r == Err::<ArgsModel, ArgsProblem>(
                ArgsProblem::InvalidTokenizer("Invalid tokenizer: "@ + name + ". Expected 'word' or 'bpe'"@),
            )
        }),
        ({
            let q = read_args(args.push(positional));
            q is Ok && q->Ok_0.tokenizer == read_args(args)->Ok_0.tokenizer
        }),
{
    let arg = "-tokenizer="@ + name;
    let extended = args.push(arg);
    assert(extended.drop_last() =~= args);
    assert(arg.take("-tokenizer="@.len() as int) =~= "-tokenizer="@);
    assert(arg.skip("-tokenizer="@.len() as int) =~= name);
    assert(has_prefix(arg, "-tokenizer="@));
    assert(read_args(extended) == apply_arg(read_args(args)->Ok_0, arg));
    assert(extended.last() == arg);
    reveal_strlit("word");
    reveal_strlit("bpe");
    assert("word"@ != "bpe"@) by {
        assert("word"@.len() != "bpe"@.len());
    }
    let more = args.push(positional);
    assert(more.drop_last() =~= args);
    reveal_strlit("-tokenizer=");
    reveal_strlit("-vocab=");
    reveal_strlit("-epochs=");
    reveal_strlit("-seq-len=");
    reveal_strlit("-d-model=");
    reveal_strlit("-learning-rate=");
    reveal_strlit("-seed=");
    reveal_strlit("-trace");
    assert(!has_prefix(positional, "-tokenizer="@) && !has_prefix(positional, "-vocab="@) && !has_prefix(
        positional,
        "-epochs="@,
    ) && !has_prefix(positional, "-seq-len="@) && !has_prefix(positional, "-d-model="@) && !has_prefix(
        positional,
        "-learning-rate="@,
    ) && !has_prefix(positional, "-seed="@) && positional != "-trace"@) by {
        if positional.len() > 0 {
            assert(positional.take(1)[0] == positional[0]);
        }
    }
}

/// A command line of one tokenizer option, one training file and a prompt
/// selects the tokenizer the option names: `word` gives the word tokenizer,
/// `bpe` the byte-pair tokenizer, with that file and that prompt.
pub proof fn lemma_parse_tokenizer_choice(name: Seq<char>, file: Seq<char>, prompt: Seq<char>)
    requires
        is_positional(file),
        is_positional(prompt),
        name == "word"@ || name == "bpe"@,
    ensures
        ({
            let r = parsed_args(seq!["-tokenizer="@ + name, file, prompt]);
            &&& r is Ok
            &&& r->Ok_0.tokenizer == if name == "word"@ {
                TokenizerKind::Word
            } else {
                TokenizerKind::Bpe
            }
            &&& r->Ok_0.file_paths == seq![file]
            &&& r->Ok_0.prompt == prompt
        }),
{
    let arg = "-tokenizer="@ + name;
    let all = seq![arg, file, prompt];
    let empty = Seq::<Seq<char>>::empty();
    assert(read_args(empty) == Ok::<ArgsModel, ArgsProblem>(default_args()));
    lemma_tokenizer_option(empty, name, file);
    assert(empty.push(arg) =~= seq![arg]);
    let one = seq![arg];
    lemma_tokenizer_option(one, name, file);
    lemma_tokenizer_option(one.push(file), name, prompt);
    assert(one.push(file) =~= seq![arg, file]);
    assert(seq![arg, file].push(prompt) =~= all);
    assert(all.drop_last() =~= seq![arg, file]);
    assert(seq![arg, file].drop_last() =~= one);
    reveal_strlit("-tokenizer=");
    reveal_strlit("-vocab=");
    reveal_strlit("-epochs=");
    reveal_strlit("-seq-len=");
    reveal_strlit("-d-model=");
    reveal_strlit("-learning-rate=");
    reveal_strlit("-seed=");
    reveal_strlit("-trace");
    let m1 = read_args(one)->Ok_0;
    assert(!has_prefix(file, "-tokenizer="@) && !has_prefix(file, "-vocab="@) && !has_prefix(file, "-epochs="@)
        && !has_prefix(file, "-seq-len="@) && !has_prefix(file, "-d-model="@) && !has_prefix(
        file,
        "-learning-rate="@,
    ) && !has_prefix(file, "-seed="@) && file != "-trace"@) by {
        if file.len() > 0 {
            assert(file.take(1)[0] == file[0]);
        }
    }
    assert(!has_prefix(prompt, "-tokenizer="@) && !has_prefix(prompt, "-vocab="@) && !has_prefix(prompt, "-epochs="@)
        && !has_prefix(prompt, "-seq-len="@) && !has_prefix(prompt, "-d-model="@) && !has_prefix(
        prompt,
        "-learning-rate="@,
    ) && !has_prefix(prompt, "-seed="@) && prompt != "-trace"@) by {
        if prompt.len() > 0 {
            assert(prompt.take(1)[0] == prompt[0]);
        }
    }
    assert(m1.file_paths =~= Seq::<Seq<char>>::empty());
    let m2 = read_args(seq![arg, file])->Ok_0;
    assert(m2.file_paths =~= seq![file]);
    let m3 = read_args(all)->Ok_0;
    assert(m3.file_paths =~= seq![file, prompt]);
    assert(m3.file_paths.drop_last() =~= seq![file]);
}

} // verus!
