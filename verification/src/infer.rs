//! Completing a command: the command line, the context that the model sees, the choice of a token
//! and the course of a completion.
use vstd::prelude::*;

use crate::number;
use crate::text;
use crate::vocab;
use crate::vocab::Vocab;

verus! {

// ---------------------------------------------------------------------------
// The command line
// ---------------------------------------------------------------------------

/// What to complete, and how.
pub struct Args {
    /// The beginning of the command.
    pub prefix: String,
    /// The temperature, as it was written. It reads as a floating-point number.
    pub temperature: String,
    /// The largest number of characters to add.
    pub max_tokens: usize,
}

/// The texts and numbers of [`Args`].
pub struct ArgsText {
    /// The beginning of the command.
    pub prefix: Seq<char>,
    /// The temperature.
    pub temperature: Seq<char>,
    /// The largest number of characters to add.
    pub max_tokens: usize,
}

impl View for Args {
    type V = ArgsText;

    open spec fn view(&self) -> ArgsText {
        ArgsText {
            prefix: self.prefix@,
            temperature: self.temperature@,
            max_tokens: self.max_tokens,
        }
    }
}

/// Why a command line asks for nothing that can be done.
pub enum ArgsError {
    /// No value follows the option for the temperature.
    NoTemperature,
    /// The temperature is no floating-point number.
    BadTemperature(String),
    /// No value follows the option for the number of characters.
    NoMaxTokens,
    /// The number of characters is no number.
    BadMaxTokens(String),
    /// An option that is not known.
    Unknown(String),
    /// There is nothing to complete.
    NoPrefix,
}

/// The texts of an [`ArgsError`].
pub enum ArgsErrorText {
    /// No value follows the option for the temperature.
    NoTemperature,
    /// The temperature is no floating-point number.
    BadTemperature(Seq<char>),
    /// No value follows the option for the number of characters.
    NoMaxTokens,
    /// The number of characters is no number.
    BadMaxTokens(Seq<char>),
    /// An option that is not known.
    Unknown(Seq<char>),
    /// There is nothing to complete.
    NoPrefix,
}

impl View for ArgsError {
    type V = ArgsErrorText;

    open spec fn view(&self) -> ArgsErrorText {
        match *self {
            ArgsError::NoTemperature => ArgsErrorText::NoTemperature,
            ArgsError::BadTemperature(s) => ArgsErrorText::BadTemperature(s@),
            ArgsError::NoMaxTokens => ArgsErrorText::NoMaxTokens,
            ArgsError::BadMaxTokens(s) => ArgsErrorText::BadMaxTokens(s@),
            ArgsError::Unknown(s) => ArgsErrorText::Unknown(s@),
            ArgsError::NoPrefix => ArgsErrorText::NoPrefix,
        }
    }
}

/// What is wrong, in words; `None` where it is a value that does not read as a number, which is
/// told by whoever reads it as one.
pub open spec fn words(e: ArgsErrorText) -> Option<Seq<char>> {
    match e {
        ArgsErrorText::NoTemperature => Some("--temperature requires a value"@),
        ArgsErrorText::BadTemperature(s) => None,
        ArgsErrorText::NoMaxTokens => Some("--max-tokens requires a value"@),
        ArgsErrorText::BadMaxTokens(s) => None,
        ArgsErrorText::Unknown(s) => Some("unknown argument: "@ + s),
        ArgsErrorText::NoPrefix => Some(
            "usage: infer <prefix> [--temperature 0.8] [--max-tokens 200]"@,
        ),
    }
}

impl ArgsError {
    /// What is wrong, in words; `None` where it is a value that does not read as a number.
    pub fn message(&self) -> (m: Option<String>)
        ensures
            match words(self@) {
                Some(w) => m matches Some(s) && s@ == w,
                None => m is None,
            },
            match *self {
                ArgsError::NoTemperature => m matches Some(s) && s@
                    == "--temperature requires a value"@,
                ArgsError::BadTemperature(_) => m is None,
                ArgsError::NoMaxTokens => m matches Some(s) && s@
                    == "--max-tokens requires a value"@,
                ArgsError::BadMaxTokens(_) => m is None,
                ArgsError::Unknown(arg) => m matches Some(s) && s@ == "unknown argument: "@ + arg@,
                ArgsError::NoPrefix => m matches Some(s) && s@
                    == "usage: infer <prefix> [--temperature 0.8] [--max-tokens 200]"@,
            },
    {
        match self {
            ArgsError::NoTemperature => Some("--temperature requires a value".to_owned()),
            ArgsError::BadTemperature(_) => None,
            ArgsError::NoMaxTokens => Some("--max-tokens requires a value".to_owned()),
            ArgsError::BadMaxTokens(_) => None,
            ArgsError::Unknown(s) => {
                let mut m: String = "unknown argument: ".to_owned();
                m.push_str(s.as_str());
                Some(m)
            },
            ArgsError::NoPrefix => Some(
                "usage: infer <prefix> [--temperature 0.8] [--max-tokens 200]".to_owned(),
            ),
        }
    }
}

/// The options for the temperature.
pub open spec fn is_temperature_option(arg: Seq<char>) -> bool {
    arg == "--temperature"@ || arg == "-t"@
}

/// The options for the number of characters.
pub open spec fn is_max_tokens_option(arg: Seq<char>) -> bool {
    arg == "--max-tokens"@ || arg == "-n"@
}

/// Whether an argument looks like an option.
pub open spec fn starts_with_dash(arg: Seq<char>) -> bool {
    arg.len() > 0 && arg[0] == '-'
}

/// What is asked for when nothing is said.
pub open spec fn default_args() -> ArgsText {
    ArgsText { prefix: seq![], temperature: "0.8"@, max_tokens: 200 }
}

/// What the arguments from index `i` on ask for, after those before asked for `args`.
pub open spec fn args_from(argv: Seq<Seq<char>>, i: int, args: ArgsText) -> Result<
    ArgsText,
    ArgsErrorText,
>
    decreases argv.len() + 1 - i,
{
    if i >= argv.len() {
        if args.prefix.len() == 0 {
            Err(ArgsErrorText::NoPrefix)
        } else {
            Ok(args)
        }
    } else if is_temperature_option(argv[i]) {
        if i + 1 >= argv.len() {
            Err(ArgsErrorText::NoTemperature)
        } else if !number::is_float(argv[i + 1]) {
            Err(ArgsErrorText::BadTemperature(argv[i + 1]))
        } else {
            args_from(argv, i + 2, ArgsText { temperature: argv[i + 1], ..args })
        }
    } else if is_max_tokens_option(argv[i]) {
        if i + 1 >= argv.len() {
            Err(ArgsErrorText::NoMaxTokens)
        } else {
            match number::usize_value(argv[i + 1]) {
                Some(n) => args_from(argv, i + 2, ArgsText { max_tokens: n as usize, ..args }),
                None => Err(ArgsErrorText::BadMaxTokens(argv[i + 1])),
            }
        }
    } else if !starts_with_dash(argv[i]) {
        args_from(argv, i + 1, ArgsText { prefix: argv[i], ..args })
    } else {
        Err(ArgsErrorText::Unknown(argv[i]))
    }
}

/// What the arguments after the program's name ask for, or the first thing that is wrong with
/// them. Where something is said more than once, the last counts.
pub open spec fn args_of(argv: Seq<Seq<char>>) -> Result<ArgsText, ArgsErrorText> {
    args_from(argv, 1, default_args())
}

impl Args {
    /// Reads the command line.
    pub fn parse(argv: &Vec<String>) -> (r: Result<Args, ArgsError>)
        ensures
            match r {
                Ok(args) => args_of(text::texts(argv@)) == Ok::<ArgsText, ArgsErrorText>(args@),
                Err(e) => args_of(text::texts(argv@)) == Err::<ArgsText, ArgsErrorText>(e@),
            },
            r matches Ok(args) ==> args.prefix@.len() > 0 && number::is_float(args.temperature@),
    {
        let ghost all = text::texts(argv@);
        let mut prefix: String = String::new();
        let mut temperature: String = "0.8".to_owned();
        let mut max_tokens: usize = 200;
        let mut i: usize = 1;
        proof {
            lemma_default_temperature();
        }
        while i < argv.len()
            invariant
                1 <= i,
                all == text::texts(argv@),
                args_from(
                    all,
                    i as int,
                    (ArgsText { prefix: prefix@, temperature: temperature@, max_tokens }),
                ) == args_of(all),
                number::is_float(temperature@),
            decreases argv@.len() - i,
        {
            let arg: &str = argv[i].as_str();
            assert(arg@ == all[i as int]);
            let is_temperature: bool = text::same(arg, "--temperature") || text::same(arg, "-t");
            let is_max_tokens: bool = text::same(arg, "--max-tokens") || text::same(arg, "-n");
            let chars: Vec<char> = text::chars_of(arg);
            i = i + 1;
            if is_temperature {
                if i >= argv.len() {
                    return Err(ArgsError::NoTemperature);
                }
                assert(argv@[i as int]@ == all[i as int]);
                if !number::reads_as_float(&text::chars_of(argv[i].as_str())) {
                    return Err(ArgsError::BadTemperature(argv[i].clone()));
                }
                temperature = argv[i].clone();
                i = i + 1;
            } else if is_max_tokens {
                if i >= argv.len() {
                    return Err(ArgsError::NoMaxTokens);
                }
                assert(argv@[i as int]@ == all[i as int]);
                match number::parse_usize(&text::chars_of(argv[i].as_str())) {
                    Some(n) => {
                        max_tokens = n;
                    },
                    None => {
                        return Err(ArgsError::BadMaxTokens(argv[i].clone()));
                    },
                }
                i = i + 1;
            } else if chars.len() > 0 && chars[0] == '-' {
                return Err(ArgsError::Unknown(arg.to_owned()));
            } else {
                prefix = arg.to_owned();
            }
        }
        if prefix.as_str().is_empty() {
            return Err(ArgsError::NoPrefix);
        }
        Ok(Args { prefix, temperature, max_tokens })
    }
}

/// A prefix with both options after it asks for what it says, in the long form of the options and
/// in the short form.
pub proof fn law_usage(
    program: Seq<char>,
    prefix: Seq<char>,
    temperature: Seq<char>,
    max_tokens: Seq<char>,
)
    requires
        prefix.len() > 0,
        !starts_with_dash(prefix),
        number::is_float(temperature),
        number::usize_value(max_tokens) is Some,
    ensures
        ({
            let asked = ArgsText {
                prefix,
                temperature,
                max_tokens: number::usize_value(max_tokens)->0 as usize,
            };
            &&& args_of(
                seq![program, prefix, "--temperature"@, temperature, "--max-tokens"@, max_tokens],
            ) == Ok::<ArgsText, ArgsErrorText>(asked)
            &&& args_of(seq![program, prefix, "-t"@, temperature, "-n"@, max_tokens]) == Ok::<
                ArgsText,
                ArgsErrorText,
            >(asked)
        }),
{
    reveal_strlit("--temperature");
    reveal_strlit("-t");
    reveal_strlit("--max-tokens");
    reveal_strlit("-n");
    assert("--temperature"@.len() == 13 && "--max-tokens"@.len() == 12);
    assert("-t"@.len() == 2 && "-n"@.len() == 2 && "-t"@[1] != "-n"@[1]);
    assert("--temperature"@[0] == '-' && "-t"@[0] == '-');
    assert("--max-tokens"@[0] == '-' && "-n"@[0] == '-');
    assert(!is_temperature_option(prefix) && !is_max_tokens_option(prefix));
    reveal_with_fuel(args_from, 4);
}

/// The temperature that is taken when none is given is a floating-point number.
proof fn lemma_default_temperature()
    ensures
        number::is_float("0.8"@),
{
    reveal_strlit("0.8");
    let s = "0.8"@;
    assert(s[1] == '.');
    assert(number::all_digits(s.take(1)));
    assert(number::all_digits(s.skip(2)));
    assert(number::is_mantissa(s));
}

// ---------------------------------------------------------------------------
// The context and the next token
// ---------------------------------------------------------------------------

/// The last `block_size` tokens, or all of them where they are fewer.
pub open spec fn context(tokens: Seq<u32>, block_size: usize) -> Seq<u32> {
    if tokens.len() > block_size {
        tokens.skip(tokens.len() - block_size)
    } else {
        tokens
    }
}

/// What the model sees of `tokens`: the last `block_size` of them.
pub fn context_window(tokens: &Vec<u32>, block_size: usize) -> (r: Vec<u32>)
    ensures
        r@ == context(tokens@, block_size),
        tokens@.len() <= block_size ==> r@ == tokens@,
        tokens@.len() > block_size ==> r@.len() == block_size && r@ == tokens@.skip(
            tokens@.len() - block_size,
        ),
{
    let len: usize = tokens.len();
    let from: usize = if len > block_size {
        len - block_size
    } else {
        0
    };
    let mut r: Vec<u32> = Vec::new();
    for i in from..len
        invariant
            from <= len == tokens@.len(),
            r@ == tokens@.subrange(from as int, i as int),
    {
        r.push(tokens[i]);
    }
    r
}

/// The first index at which `below` holds, or the last index where it holds at none.
pub open spec fn first_below(below: Seq<bool>) -> int
    decreases below.len(),
{
    if below.len() <= 1 || below[0] {
        0
    } else {
        1 + first_below(below.skip(1))
    }
}

/// The token that is drawn. `below[i]` says whether the number drawn lies below the probabilities
/// of the tokens up to `i`, summed up; rounding may keep it from lying below any sum.
pub fn sample_token(below: &Vec<bool>) -> (token: u32)
    requires
        below@.len() > 0,
    ensures
        token == first_below(below@) as u32,
        below@.len() <= 0x1_0000_0000 ==> {
            &&& token < below@.len()
            &&& forall|j: int| 0 <= j < token ==> !below@[j]
            &&& below@[token as int] || token == below@.len() - 1
        },
{
    let last: usize = below.len() - 1;
    let mut i: usize = 0;
    assert(below@.skip(0) == below@);
    while i < last && !below[i]
        invariant
            i <= last,
            last + 1 == below@.len(),
            first_below(below@) == i + first_below(below@.skip(i as int)),
        decreases last - i,
    {
        assert(below@.skip(i as int).skip(1) == below@.skip(i + 1));
        i = i + 1;
    }
    proof {
        law_first_below(below@);
    }
    #[verifier::truncate]
    (i as u32)
}

/// The token that is drawn is the first whose sum lies above the number, and the last token where
/// there is none.
pub proof fn law_first_below(below: Seq<bool>)
    requires
        below.len() > 0,
    ensures
        0 <= first_below(below) < below.len(),
        forall|j: int| 0 <= j < first_below(below) ==> !below[j],
        below[first_below(below)] || first_below(below) == below.len() - 1,
    decreases below.len(),
{
    if below.len() > 1 && !below[0] {
        let rest = below.skip(1);
        law_first_below(rest);
        assert forall|j: int| 0 <= j < first_below(below) implies !below[j] by {
            if j > 0 {
                assert(below[j] == rest[j - 1]);
            }
        }
        assert(below[first_below(below)] == rest[first_below(rest)]);
    }
}

// ---------------------------------------------------------------------------
// A completion
// ---------------------------------------------------------------------------

/// A completion under way.
pub struct Completion {
    /// The tokens of the prefix and of the characters added so far.
    pub tokens: Vec<u32>,
    /// How many more tokens may be drawn.
    pub remaining: usize,
}

/// The prefix holds no character that the model knows.
pub struct NoKnownCharacters {
    /// The prefix.
    pub prefix: String,
}

impl NoKnownCharacters {
    /// What is wrong, in words.
    pub fn message(&self) -> (m: String)
        ensures
            m@ == "prefix '"@ + self.prefix@ + "' contains no known characters"@,
    {
        let mut m: String = "prefix '".to_owned();
        m.push_str(self.prefix.as_str());
        m.push_str("' contains no known characters");
        m
    }
}

/// The character that a drawn token adds: none where it is a newline, which ends the command, or
/// where the token stands for no character.
pub open spec fn added_char(chars: Seq<char>, token: u32) -> Option<char> {
    match vocab::char_of(chars, token) {
        Some(c) => if c == '\n' {
            None
        } else {
            Some(c)
        },
        None => None,
    }
}

/// Where a completion stands.
pub struct Progress {
    /// The tokens so far.
    pub tokens: Seq<u32>,
    /// How many more tokens may be drawn.
    pub remaining: nat,
}

impl View for Completion {
    type V = Progress;

    open spec fn view(&self) -> Progress {
        Progress { tokens: self.tokens@, remaining: self.remaining as nat }
    }
}

/// Where a completion stands after a token was drawn.
pub open spec fn stepped(chars: Seq<char>, at: Progress, token: u32) -> Progress {
    match added_char(chars, token) {
        Some(c) => Progress {
            tokens: at.tokens.push(token),
            remaining: (at.remaining - 1) as nat,
        },
        None => Progress { tokens: at.tokens, remaining: 0 },
    }
}

impl Completion {
    /// Begins to complete `prefix` by at most `max_tokens` characters.
    pub fn start(vocab: &Vocab, prefix: &str, max_tokens: usize) -> (r: Result<
        Completion,
        NoKnownCharacters,
    >)
        ensures
            match r {
                Ok(completion) => {
                    &&& completion.tokens@ == vocab::tokens_of(vocab@, prefix@)
                    &&& completion.tokens@.len() > 0
                    &&& completion.remaining == max_tokens
                },
                Err(e) => vocab::tokens_of(vocab@, prefix@).len() == 0 && e.prefix@ == prefix@,
            },
    {
        let tokens: Vec<u32> = vocab.encode(prefix);
        if tokens.len() == 0 {
            return Err(NoKnownCharacters { prefix: prefix.to_owned() });
        }
        Ok(Completion { tokens, remaining: max_tokens })
    }

    /// What the model is to see next, or `None` where the completion is over.
    pub fn next_context(&self, block_size: usize) -> (r: Option<Vec<u32>>)
        ensures
            self.remaining == 0 ==> r is None,
            self.remaining > 0 ==> (r matches Some(tokens) && tokens@ == context(
                self.tokens@,
                block_size,
            )),
            r matches Some(tokens) ==> {
                &&& self.tokens@.len() <= block_size ==> tokens@ == self.tokens@
                &&& self.tokens@.len() > block_size ==> tokens@.len() == block_size && tokens@
                    == self.tokens@.skip(self.tokens@.len() - block_size)
            },
    {
        if self.remaining == 0 {
            None
        } else {
            Some(context_window(&self.tokens, block_size))
        }
    }

    /// Takes up a drawn token: the character that it adds, or `None` where it ends the completion.
    pub fn step(&mut self, vocab: &Vocab, token: u32) -> (r: Option<char>)
        requires
            old(self).remaining > 0,
        ensures
            r == added_char(vocab@, token),
            final(self)@ == stepped(vocab@, old(self)@, token),
            token < vocab@.len() && vocab@[token as int] != '\n' ==> {
                &&& r == Some(vocab@[token as int])
                &&& final(self).tokens@ == old(self).tokens@.push(token)
                &&& final(self).remaining == old(self).remaining - 1
            },
            token >= vocab@.len() || vocab@[token as int] == '\n' ==> {
                &&& r is None
                &&& final(self).tokens@ == old(self).tokens@
                &&& final(self).remaining == 0
            },
    {
        match vocab.decode_char(token) {
            Some(c) => if c == '\n' {
                self.remaining = 0;
                None
            } else {
                self.tokens.push(token);
                self.remaining = self.remaining - 1;
                Some(c)
            },
            None => {
                self.remaining = 0;
                None
            },
        }
    }
}

/// The characters that a completion adds from `at` on, when `drawn` are the tokens that would be
/// drawn, one after the other.
pub open spec fn completed(chars: Seq<char>, at: Progress, drawn: Seq<u32>) -> Seq<char>
    decreases drawn.len(),
{
    if at.remaining == 0 || drawn.len() == 0 {
        seq![]
    } else {
        match added_char(chars, drawn[0]) {
            Some(c) => seq![c] + completed(chars, stepped(chars, at, drawn[0]), drawn.skip(1)),
            None => seq![],
        }
    }
}

/// Where a completion comes to from `at`, when `drawn` are the tokens that would be drawn, one
/// after the other.
pub open spec fn reached(chars: Seq<char>, at: Progress, drawn: Seq<u32>) -> Progress
    decreases drawn.len(),
{
    if at.remaining == 0 || drawn.len() == 0 {
        at
    } else {
        reached(chars, stepped(chars, at, drawn[0]), drawn.skip(1))
    }
}

/// A completion adds at most as many characters as were asked for, and never a newline; each is
/// the character of the token drawn for it.
pub proof fn law_completion_is_one_line(chars: Seq<char>, at: Progress, drawn: Seq<u32>)
    ensures
        completed(chars, at, drawn).len() <= at.remaining,
        completed(chars, at, drawn).len() <= drawn.len(),
        !completed(chars, at, drawn).contains('\n'),
        forall|i: int|
            0 <= i < completed(chars, at, drawn).len() ==> vocab::char_of(chars, drawn[i]) == Some(
                #[trigger] completed(chars, at, drawn)[i],
            ),
    decreases drawn.len(),
{
    let added = completed(chars, at, drawn);
    if at.remaining > 0 && drawn.len() > 0 {
        if let Some(c) = added_char(chars, drawn[0]) {
            let next = stepped(chars, at, drawn[0]);
            let rest = completed(chars, next, drawn.skip(1));
            law_completion_is_one_line(chars, next, drawn.skip(1));
            assert(added == seq![c] + rest);
            assert forall|i: int| 0 <= i < added.len() implies vocab::char_of(chars, drawn[i])
                == Some(#[trigger] added[i]) && added[i] != '\n' by {
                if i > 0 {
                    assert(added[i] == rest[i - 1]);
                    assert(rest.contains(rest[i - 1]));
                    assert(drawn[i] == drawn.skip(1)[i - 1]);
                }
            }
        }
    }
}

/// A drawn token adds the character that it stands for, and is one of the tokens from then on;
/// only one that stands for a newline, or for no character, ends the completion, and changes
/// nothing else.
pub proof fn law_step(chars: Seq<char>, at: Progress, token: u32, c: char)
    requires
        at.remaining > 0,
    ensures
        vocab::char_of(chars, token) == Some(c) && c != '\n' ==> {
            &&& added_char(chars, token) == Some(c)
            &&& stepped(chars, at, token).tokens == at.tokens.push(token)
            &&& stepped(chars, at, token).remaining == at.remaining - 1
        },
        vocab::char_of(chars, token) == Some('\n') || vocab::char_of(chars, token) is None ==> {
            &&& added_char(chars, token) is None
            &&& stepped(chars, at, token).tokens == at.tokens
            &&& stepped(chars, at, token).remaining == 0
        },
        added_char(chars, token) is None <==> (token >= chars.len() || chars[token as int] == '\n'),
{
}

/// A completion goes on until a token for a newline or for no character is drawn, no token is left,
/// or no more may be drawn.
pub proof fn law_completion_ends(chars: Seq<char>, at: Progress, drawn: Seq<u32>)
    ensures
        ({
            let n = completed(chars, at, drawn).len();
            ||| n == at.remaining
            ||| n == drawn.len()
            ||| n < drawn.len() && (vocab::char_of(chars, drawn[n as int]) is None
                || vocab::char_of(chars, drawn[n as int]) == Some('\n'))
        }),
    decreases drawn.len(),
{
    if at.remaining > 0 && drawn.len() > 0 {
        if let Some(c) = added_char(chars, drawn[0]) {
            let next = stepped(chars, at, drawn[0]);
            let rest = drawn.skip(1);
            law_completion_ends(chars, next, rest);
            let n = completed(chars, next, rest).len();
            assert(completed(chars, at, drawn).len() == n + 1);
            if n < rest.len() {
                assert(rest[n as int] == drawn[n as int + 1]);
            }
        }
    }
}

/// The tokens that a completion comes to are those it began with and those drawn for the
/// characters it added.
pub proof fn law_tokens_reached(chars: Seq<char>, at: Progress, drawn: Seq<u32>)
    ensures
        reached(chars, at, drawn).tokens == at.tokens + drawn.take(
            completed(chars, at, drawn).len() as int,
        ),
    decreases drawn.len(),
{
    law_completion_is_one_line(chars, at, drawn);
    let n = completed(chars, at, drawn).len() as int;
    if at.remaining == 0 || drawn.len() == 0 {
        assert(at.tokens + drawn.take(0) == at.tokens);
    } else {
        let next = stepped(chars, at, drawn[0]);
        let rest = drawn.skip(1);
        law_tokens_reached(chars, next, rest);
        law_completion_is_one_line(chars, next, rest);
        let m = completed(chars, next, rest).len() as int;
        if added_char(chars, drawn[0]) is Some {
            assert(n == m + 1);
            assert(drawn.take(n) == seq![drawn[0]] + rest.take(m));
            assert(at.tokens.push(drawn[0]) + rest.take(m) == at.tokens + drawn.take(n));
        } else {
            assert(m == 0);
            assert(next.tokens + rest.take(0) == at.tokens + drawn.take(0));
        }
    }
}

/// The tokens of a completion are those of the prefix and the added characters, as one text: the
/// model sees what is shown.
pub proof fn law_tokens_are_those_of_the_text(
    chars: Seq<char>,
    prefix: Seq<char>,
    at: Progress,
    drawn: Seq<u32>,
)
    requires
        chars.len() <= 0x1_0000_0000,
        chars.no_duplicates(),
        at.tokens == vocab::tokens_of(chars, prefix),
    ensures
        reached(chars, at, drawn).tokens == vocab::tokens_of(
            chars,
            prefix + completed(chars, at, drawn),
        ),
{
    let added = completed(chars, at, drawn);
    law_completion_is_one_line(chars, at, drawn);
    law_tokens_reached(chars, at, drawn);
    vocab::law_tokens_of_two_texts(chars, prefix, added);
    lemma_tokens_of_decoded(chars, added, drawn.take(added.len() as int));
}

/// Characters that tokens stand for have those tokens.
proof fn lemma_tokens_of_decoded(chars: Seq<char>, s: Seq<char>, tokens: Seq<u32>)
    requires
        chars.len() <= 0x1_0000_0000,
        chars.no_duplicates(),
        s.len() == tokens.len(),
        forall|i: int|
            0 <= i < s.len() ==> vocab::char_of(chars, tokens[i]) == Some(#[trigger] s[i]),
    ensures
        vocab::tokens_of(chars, s) == tokens,
    decreases s.len(),
{
    if s.len() > 0 {
        let before = s.drop_last();
        let most = tokens.drop_last();
        assert forall|i: int| 0 <= i < before.len() implies vocab::char_of(chars, most[i]) == Some(
            #[trigger] before[i],
        ) by {
            assert(before[i] == s[i]);
        }
        lemma_tokens_of_decoded(chars, before, most);
        assert(s[s.len() - 1] == s.last());
        vocab::law_char_encodes(chars, tokens.last());
        assert(most.push(tokens.last()) == tokens);
    }
}

/// The context is all of the tokens where they fit into a block, and otherwise fills a block with
/// the last of them; it is empty only where there are no tokens or a block has no room.
pub proof fn law_context_is_a_block(tokens: Seq<u32>, block_size: usize)
    ensures
        tokens.len() <= block_size ==> context(tokens, block_size) == tokens,
        tokens.len() > block_size ==> context(tokens, block_size).len() == block_size,
        context(tokens, block_size).len() <= block_size,
        context(tokens, block_size).len() <= tokens.len(),
        context(tokens, block_size) == tokens.skip(
            tokens.len() - context(tokens, block_size).len(),
        ),
        tokens.len() > 0 && block_size > 0 ==> context(tokens, block_size).len() > 0
            && context(tokens, block_size).last() == tokens.last(),
{
}

/// How many more tokens may be drawn is less by one for each character added; none, where a token
/// ended the completion.
pub proof fn law_remaining_reached(chars: Seq<char>, at: Progress, drawn: Seq<u32>)
    ensures
        ({
            let n = completed(chars, at, drawn).len();
            reached(chars, at, drawn).remaining == if n == drawn.len() {
                at.remaining - n
            } else {
                0
            }
        }),
    decreases drawn.len(),
{
    if at.remaining > 0 && drawn.len() > 0 {
        let next = stepped(chars, at, drawn[0]);
        let rest = drawn.skip(1);
        law_remaining_reached(chars, next, rest);
        if added_char(chars, drawn[0]) is Some {
            assert(completed(chars, at, drawn).len() == completed(chars, next, rest).len() + 1);
        }
    }
}

/// What stands for a completion, a command line and what is wrong with one.
pub proof fn law_views(completion: Completion, args: Args, e: ArgsError)
    ensures
        completion@.tokens == completion.tokens@,
        completion@.remaining == completion.remaining,
        args@.prefix == args.prefix@,
        args@.temperature == args.temperature@,
        args@.max_tokens == args.max_tokens,
        e is NoTemperature <==> e@ is NoTemperature,
        e is BadTemperature <==> e@ is BadTemperature,
        e is NoMaxTokens <==> e@ is NoMaxTokens,
        e is BadMaxTokens <==> e@ is BadMaxTokens,
        e is Unknown <==> e@ is Unknown,
        e is NoPrefix <==> e@ is NoPrefix,
        e is BadTemperature ==> e@->BadTemperature_0 == e->BadTemperature_0@,
        e is BadMaxTokens ==> e@->BadMaxTokens_0 == e->BadMaxTokens_0@,
        e is Unknown ==> e@->Unknown_0 == e->Unknown_0@,
{
}

/// What is asked for when nothing is said, and that something to complete must be given.
pub proof fn law_no_arguments(argv: Seq<Seq<char>>, args: ArgsText)
    ensures
        default_args().prefix.len() == 0,
        default_args().temperature == "0.8"@,
        default_args().max_tokens == 200,
        args_of(argv) == args_from(argv, 1, default_args()),
        argv.len() <= 1 ==> args_of(argv) == Err::<ArgsText, ArgsErrorText>(ArgsErrorText::NoPrefix),
        args.prefix.len() > 0 ==> args_from(argv, argv.len() as int, args) == Ok::<
            ArgsText,
            ArgsErrorText,
        >(args),
        args.prefix.len() == 0 ==> args_from(argv, argv.len() as int, args) == Err::<
            ArgsText,
            ArgsErrorText,
        >(ArgsErrorText::NoPrefix),
{
}

/// An option takes the argument after it as its value, which counts from there on; where there is
/// none, or it is no number, that is the error.
pub proof fn law_options(argv: Seq<Seq<char>>, i: int, args: ArgsText)
    requires
        0 <= i < argv.len(),
    ensures
        argv[i] == "--temperature"@ || argv[i] == "-t"@ ==> {
            &&& i + 1 == argv.len() ==> args_from(argv, i, args) == Err::<ArgsText, ArgsErrorText>(
                ArgsErrorText::NoTemperature,
            )
            &&& i + 1 < argv.len() && !number::is_float(argv[i + 1]) ==> args_from(argv, i, args)
                == Err::<ArgsText, ArgsErrorText>(ArgsErrorText::BadTemperature(argv[i + 1]))
            &&& i + 1 < argv.len() && number::is_float(argv[i + 1]) ==> args_from(argv, i, args)
                == args_from(
                argv,
                i + 2,
                (ArgsText {
                    prefix: args.prefix,
                    temperature: argv[i + 1],
                    max_tokens: args.max_tokens,
                }),
            )
        },
        argv[i] == "--max-tokens"@ || argv[i] == "-n"@ ==> {
            &&& i + 1 == argv.len() ==> args_from(argv, i, args) == Err::<ArgsText, ArgsErrorText>(
                ArgsErrorText::NoMaxTokens,
            )
            &&& i + 1 < argv.len() && number::usize_value(argv[i + 1]) is None ==> args_from(
                argv,
                i,
                args,
            ) == Err::<ArgsText, ArgsErrorText>(ArgsErrorText::BadMaxTokens(argv[i + 1]))
            &&& i + 1 < argv.len() && number::usize_value(argv[i + 1]) is Some ==> args_from(
                argv,
                i,
                args,
            ) == args_from(
                argv,
                i + 2,
                (ArgsText {
                    prefix: args.prefix,
                    temperature: args.temperature,
                    max_tokens: number::usize_value(argv[i + 1])->0 as usize,
                }),
            )
        },
{
    reveal_strlit("--temperature");
    reveal_strlit("-t");
    reveal_strlit("--max-tokens");
    reveal_strlit("-n");
    assert("--temperature"@.len() == 13 && "--max-tokens"@.len() == 12);
    assert("-t"@.len() == 2 && "-n"@.len() == 2 && "-t"@[1] != "-n"@[1]);
}

/// An argument that is no option is what to complete, from there on; one that only looks like an
/// option is the error.
pub proof fn law_other_arguments(argv: Seq<Seq<char>>, i: int, args: ArgsText)
    requires
        0 <= i < argv.len(),
    ensures
        argv[i].len() == 0 || argv[i][0] != '-' ==> args_from(argv, i, args) == args_from(
            argv,
            i + 1,
            (ArgsText {
                prefix: argv[i],
                temperature: args.temperature,
                max_tokens: args.max_tokens,
            }),
        ),
        argv[i].len() > 0 && argv[i][0] == '-' && argv[i] != "--temperature"@ && argv[i] != "-t"@
            && argv[i] != "--max-tokens"@ && argv[i] != "-n"@ ==> args_from(argv, i, args) == Err::<
            ArgsText,
            ArgsErrorText,
        >(ArgsErrorText::Unknown(argv[i])),
{
    reveal_strlit("--temperature");
    reveal_strlit("-t");
    reveal_strlit("--max-tokens");
    reveal_strlit("-n");
    assert("--temperature"@[0] == '-' && "-t"@[0] == '-');
    assert("--max-tokens"@[0] == '-' && "-n"@[0] == '-');
}

/// The words for what is wrong with a command line.
pub proof fn law_words(s: Seq<char>)
    ensures
        words(ArgsErrorText::NoTemperature) == Some("--temperature requires a value"@),
        words(ArgsErrorText::BadTemperature(s)) is None,
        words(ArgsErrorText::NoMaxTokens) == Some("--max-tokens requires a value"@),
        words(ArgsErrorText::BadMaxTokens(s)) is None,
        words(ArgsErrorText::Unknown(s)) == Some("unknown argument: "@ + s),
        words(ArgsErrorText::NoPrefix) == Some(
            "usage: infer <prefix> [--temperature 0.8] [--max-tokens 200]"@,
        ),
{
}

/// One argument more, after a command line that asks for something: a further beginning takes the
/// place of the one before, and an option without its value is the error.
pub proof fn law_one_more_argument(argv: Seq<Seq<char>>, arg: Seq<char>)
    requires
        argv.len() > 0,
        args_of(argv) is Ok,
    ensures
        arg.len() > 0 && arg[0] != '-' ==> args_of(argv.push(arg)) == Ok::<ArgsText, ArgsErrorText>(
            ArgsText { prefix: arg, ..args_of(argv)->Ok_0 },
        ),
        arg == "--temperature"@ || arg == "-t"@ ==> args_of(argv.push(arg)) == Err::<
            ArgsText,
            ArgsErrorText,
        >(ArgsErrorText::NoTemperature),
        arg == "--max-tokens"@ || arg == "-n"@ ==> args_of(argv.push(arg)) == Err::<
            ArgsText,
            ArgsErrorText,
        >(ArgsErrorText::NoMaxTokens),
{
    let asked = args_of(argv)->Ok_0;
    let all = argv.push(arg);
    lemma_more_arguments(argv, seq![arg], 1, default_args());
    assert(argv + seq![arg] == all);
    let n = argv.len() as int;
    assert(all[n] == arg);
    law_options(all, n, asked);
    law_other_arguments(all, n, asked);
    law_no_arguments(all, ArgsText { prefix: arg, ..asked });
}

/// Arguments that ask for something leave what follows to be read after them.
proof fn lemma_more_arguments(
    argv: Seq<Seq<char>>,
    more: Seq<Seq<char>>,
    i: int,
    args: ArgsText,
)
    requires
        0 <= i <= argv.len(),
        args_from(argv, i, args) is Ok,
    ensures
        args_from(argv + more, i, args) == args_from(
            argv + more,
            argv.len() as int,
            args_from(argv, i, args)->Ok_0,
        ),
    decreases argv.len() - i,
{
    let all = argv + more;
    if i < argv.len() {
        assert(all[i] == argv[i]);
        if is_temperature_option(argv[i]) {
            assert(all[i + 1] == argv[i + 1]);
            lemma_more_arguments(argv, more, i + 2, ArgsText { temperature: argv[i + 1], ..args });
        } else if is_max_tokens_option(argv[i]) {
            assert(all[i + 1] == argv[i + 1]);
            lemma_more_arguments(
                argv,
                more,
                i + 2,
                ArgsText { max_tokens: number::usize_value(argv[i + 1])->0 as usize, ..args },
            );
        } else {
            lemma_more_arguments(argv, more, i + 1, ArgsText { prefix: argv[i], ..args });
        }
    }
}

} // verus!
