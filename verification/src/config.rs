//! The hyperparameters of a model, and the text that keeps them.
use vstd::prelude::*;

use crate::number;
use crate::text;

verus! {

/// The hyperparameters of a model.
#[derive(Clone, Copy, Debug, PartialEq, Eq, Structural)]
pub struct Config {
    /// The number of characters that the model knows.
    pub vocab_size: usize,
    /// The width of an embedding.
    pub n_embd: usize,
    /// The number of attention heads.
    pub n_head: usize,
    /// The number of transformer blocks.
    pub n_layer: usize,
    /// The context length in characters.
    pub block_size: usize,
}

/// The keys of a configuration.
#[derive(Clone, Copy, Debug, PartialEq, Eq, Structural)]
pub enum ConfigKey {
    VocabSize,
    NEmbd,
    NHead,
    NLayer,
    BlockSize,
}

/// The name of a key.
pub open spec fn key_name(key: ConfigKey) -> Seq<char> {
    match key {
        ConfigKey::VocabSize => "vocab_size"@,
        ConfigKey::NEmbd => "n_embd"@,
        ConfigKey::NHead => "n_head"@,
        ConfigKey::NLayer => "n_layer"@,
        ConfigKey::BlockSize => "block_size"@,
    }
}

impl ConfigKey {
    /// The name of the key.
    pub fn name(&self) -> (name: &'static str)
        ensures
            name@ == key_name(*self),
            match *self {
                ConfigKey::VocabSize => name@ == "vocab_size"@,
                ConfigKey::NEmbd => name@ == "n_embd"@,
                ConfigKey::NHead => name@ == "n_head"@,
                ConfigKey::NLayer => name@ == "n_layer"@,
                ConfigKey::BlockSize => name@ == "block_size"@,
            },
    {
        match self {
            ConfigKey::VocabSize => "vocab_size",
            ConfigKey::NEmbd => "n_embd",
            ConfigKey::NHead => "n_head",
            ConfigKey::NLayer => "n_layer",
            ConfigKey::BlockSize => "block_size",
        }
    }
}

/// Why a text holds no configuration.
pub enum ConfigError {
    /// No line holds the key.
    Missing(ConfigKey),
    /// The value of the key is no number.
    Invalid(ConfigKey, String),
}

/// The texts of a [`ConfigError`].
pub enum ConfigErrorText {
    /// No line holds the key.
    Missing(ConfigKey),
    /// The value of the key is no number.
    Invalid(ConfigKey, Seq<char>),
}

impl View for ConfigError {
    type V = ConfigErrorText;

    open spec fn view(&self) -> ConfigErrorText {
        match *self {
            ConfigError::Missing(key) => ConfigErrorText::Missing(key),
            ConfigError::Invalid(key, value) => ConfigErrorText::Invalid(key, value@),
        }
    }
}

impl ConfigError {
    /// What is wrong, in words.
    pub fn message(&self) -> (m: String)
        ensures
            match self@ {
                ConfigErrorText::Missing(key) => m@ == "missing key '"@ + key_name(key)
                    + "' in config"@,
                ConfigErrorText::Invalid(key, value) => m@ == "invalid value for '"@ + key_name(key)
                    + "'"@,
            },
            match *self {
                ConfigError::Missing(key) => m@ == "missing key '"@ + key_name(key)
                    + "' in config"@,
                ConfigError::Invalid(key, _) => m@ == "invalid value for '"@ + key_name(key) + "'"@,
            },
    {
        match self {
            ConfigError::Missing(key) => {
                let mut m: String = "missing key '".to_owned();
                m.push_str(key.name());
                m.push_str("' in config");
                m
            },
            ConfigError::Invalid(key, _) => {
                let mut m: String = "invalid value for '".to_owned();
                m.push_str(key.name());
                m.push_str("'");
                m
            },
        }
    }
}

/// The value that the last line with the key `key` gives it. A line `key = value` is split at its
/// first `'='`, and the white space around both sides is no part of them; a line without `'='`
/// says nothing.
pub open spec fn value_of(lines: Seq<Seq<char>>, key: Seq<char>) -> Option<Seq<char>>
    decreases lines.len(),
{
    if lines.len() == 0 {
        None
    } else {
        let line = lines.last();
        let at = text::first_index(line, '=') as int;
        if at < line.len() && text::trimmed(line.take(at)) == key {
            Some(text::trimmed(line.skip(at + 1)))
        } else {
            value_of(lines.drop_last(), key)
        }
    }
}

/// The number that the lines give to `key`.
pub open spec fn number_of(lines: Seq<Seq<char>>, key: ConfigKey) -> Result<usize, ConfigErrorText> {
    match value_of(lines, key_name(key)) {
        Some(value) => match number::usize_value(value) {
            Some(n) => Ok(n as usize),
            None => Err(ConfigErrorText::Invalid(key, value)),
        },
        None => Err(ConfigErrorText::Missing(key)),
    }
}

/// The configuration that the lines hold, or what is wrong with the first key for which something
/// is.
pub open spec fn config_of(lines: Seq<Seq<char>>) -> Result<Config, ConfigErrorText> {
    match number_of(lines, ConfigKey::VocabSize) {
        Err(e) => Err(e),
        Ok(vocab_size) => match number_of(lines, ConfigKey::NEmbd) {
            Err(e) => Err(e),
            Ok(n_embd) => match number_of(lines, ConfigKey::NHead) {
                Err(e) => Err(e),
                Ok(n_head) => match number_of(lines, ConfigKey::NLayer) {
                    Err(e) => Err(e),
                    Ok(n_layer) => match number_of(lines, ConfigKey::BlockSize) {
                        Err(e) => Err(e),
                        Ok(block_size) => Ok(
                            Config { vocab_size, n_embd, n_head, n_layer, block_size },
                        ),
                    },
                },
            },
        },
    }
}

/// The value that the last line with the key `key` gives it.
fn lookup(lines: &Vec<Vec<char>>, key: &str) -> (r: Option<Vec<char>>)
    ensures
        match value_of(text::contents(lines@), key@) {
            Some(value) => r matches Some(v) && v@ == value,
            None => r is None,
        },
{
    let ghost all = text::contents(lines@);
    let name: Vec<char> = text::chars_of(key);
    let mut r: Option<Vec<char>> = None;
    assert(all.take(0).len() == 0);
    for i in 0..lines.len()
        invariant
            all == text::contents(lines@),
            name@ == key@,
            match value_of(all.take(i as int), key@) {
                Some(value) => r matches Some(v) && v@ == value,
                None => r is None,
            },
    {
        let line: &Vec<char> = &lines[i];
        assert(all.take(i + 1).drop_last() == all.take(i as int));
        assert(all.take(i + 1).last() == line@);
        assert(line@.skip(0) == line@);
        let at: usize = text::find(line, '=', 0);
        if at < line.len() {
            assert(line@.subrange(0, at as int) == line@.take(at as int));
            assert(line@.subrange(at + 1, line@.len() as int) == line@.skip(at + 1));
            if text::same_chars(&text::trim(&text::slice(line, 0, at)), &name) {
                r = Some(text::trim(&text::slice(line, at + 1, line.len())));
            }
        }
    }
    assert(all.take(lines@.len() as int) == all);
    r
}

/// The number that the lines give to `key`.
fn lookup_number(lines: &Vec<Vec<char>>, key: ConfigKey) -> (r: Result<usize, ConfigError>)
    ensures
        match r {
            Ok(n) => number_of(text::contents(lines@), key) == Ok::<usize, ConfigErrorText>(n),
            Err(e) => number_of(text::contents(lines@), key) == Err::<usize, ConfigErrorText>(e@),
        },
{
    match lookup(lines, key.name()) {
        Some(value) => match number::parse_usize(&value) {
            Some(n) => Ok(n),
            None => Err(ConfigError::Invalid(key, text::string_of(&value))),
        },
        None => Err(ConfigError::Missing(key)),
    }
}

/// The line that gives the number `n` to `key`.
pub open spec fn config_line(key: ConfigKey, n: usize) -> Seq<char> {
    key_name(key) + "="@ + number::decimal(n as nat)
}

/// A configuration as text.
pub open spec fn config_text(config: Config) -> Seq<char> {
    config_line(ConfigKey::VocabSize, config.vocab_size).push('\n') + config_line(
        ConfigKey::NEmbd,
        config.n_embd,
    ).push('\n') + config_line(ConfigKey::NHead, config.n_head).push('\n') + config_line(
        ConfigKey::NLayer,
        config.n_layer,
    ).push('\n') + config_line(ConfigKey::BlockSize, config.block_size).push('\n')
}

/// The line that gives the number `n` to `key`, with its line ending.
fn write_line(key: ConfigKey, n: usize) -> (line: String)
    ensures
        line@ == config_line(key, n).push('\n'),
{
    let mut line: String = key.name().to_owned();
    line.push_str("=");
    line.push_str(number::to_decimal(n as u64).as_str());
    line.push('\n');
    line
}

impl Config {
    /// Reads a configuration.
    pub fn load(text: &str) -> (r: Result<Config, ConfigError>)
        ensures
            match r {
                Ok(config) => config_of(text::split_lines(text@)) == Ok::<Config, ConfigErrorText>(
                    config,
                ),
                Err(e) => config_of(text::split_lines(text@)) == Err::<Config, ConfigErrorText>(e@),
            },
    {
        let lines: Vec<Vec<char>> = text::lines(&text::chars_of(text));
        let vocab_size: usize = match lookup_number(&lines, ConfigKey::VocabSize) {
            Ok(n) => n,
            Err(e) => return Err(e),
        };
        let n_embd: usize = match lookup_number(&lines, ConfigKey::NEmbd) {
            Ok(n) => n,
            Err(e) => return Err(e),
        };
        let n_head: usize = match lookup_number(&lines, ConfigKey::NHead) {
            Ok(n) => n,
            Err(e) => return Err(e),
        };
        let n_layer: usize = match lookup_number(&lines, ConfigKey::NLayer) {
            Ok(n) => n,
            Err(e) => return Err(e),
        };
        let block_size: usize = match lookup_number(&lines, ConfigKey::BlockSize) {
            Ok(n) => n,
            Err(e) => return Err(e),
        };
        Ok(Config { vocab_size, n_embd, n_head, n_layer, block_size })
    }

    /// The configuration as text, a line `key=value` for each key.
    pub fn save(&self) -> (text: String)
        ensures
            text@ == config_text(*self),
    {
        let mut text: String = write_line(ConfigKey::VocabSize, self.vocab_size);
        text.push_str(write_line(ConfigKey::NEmbd, self.n_embd).as_str());
        text.push_str(write_line(ConfigKey::NHead, self.n_head).as_str());
        text.push_str(write_line(ConfigKey::NLayer, self.n_layer).as_str());
        text.push_str(write_line(ConfigKey::BlockSize, self.block_size).as_str());
        text
    }
}

// ---------------------------------------------------------------------------
// What holds of every configuration
// ---------------------------------------------------------------------------

/// The name of a key is a word: no white space and no `'='` in it.
proof fn lemma_key_name(key: ConfigKey)
    ensures
        key_name(key).len() > 0,
        forall|i: int|
            0 <= i < key_name(key).len() ==> !text::white_space(#[trigger] key_name(key)[i])
                && key_name(key)[i] != '=',
{
    reveal_strlit("vocab_size");
    reveal_strlit("n_embd");
    reveal_strlit("n_head");
    reveal_strlit("n_layer");
    reveal_strlit("block_size");
}

/// Different keys have different names.
proof fn lemma_key_names_differ(a: ConfigKey, b: ConfigKey)
    ensures
        key_name(a) == key_name(b) ==> a == b,
{
    reveal_strlit("vocab_size");
    reveal_strlit("n_embd");
    reveal_strlit("n_head");
    reveal_strlit("n_layer");
    reveal_strlit("block_size");
    assert("vocab_size"@[0] != "block_size"@[0]);
    assert("n_embd"@[2] != "n_head"@[2]);
    assert("vocab_size"@.len() == 10 && "block_size"@.len() == 10);
    assert("n_embd"@.len() == 6 && "n_head"@.len() == 6 && "n_layer"@.len() == 7);
}

/// The line of a key is one line, and gives the key its number.
proof fn lemma_config_line(key: ConfigKey, n: usize)
    ensures
        ({
            let line = config_line(key, n);
            let at = text::first_index(line, '=') as int;
            &&& !line.contains('\n')
            &&& text::without_cr(line) == line
            &&& at < line.len()
            &&& text::trimmed(line.take(at)) == key_name(key)
            &&& text::trimmed(line.skip(at + 1)) == number::decimal(n as nat)
        }),
{
    let name = key_name(key);
    let value = number::decimal(n as nat);
    let line = config_line(key, n);
    lemma_key_name(key);
    number::lemma_decimal(n as nat);
    reveal_strlit("=");
    assert(line.len() == name.len() + 1 + value.len());
    assert forall|i: int| 0 <= i < line.len() implies line[i] != '\n' by {
        if i < name.len() {
            assert(line[i] == name[i]);
        } else if i > name.len() {
            assert(line[i] == value[i - name.len() - 1]);
            assert(number::is_digit(value[i - name.len() - 1]));
        }
    }
    assert(line.last() == value[value.len() - 1]);
    assert(number::is_digit(value[value.len() - 1]));
    assert(number::is_digit(value[0]));
    assert forall|i: int| 0 <= i < name.len() implies line[i] != '=' by {
        assert(line[i] == name[i]);
    }
    text::lemma_first_index_is(line, '=', name.len() as int);
    assert(line.take(name.len() as int) == name);
    assert(line.skip(name.len() + 1 as int) == value);
    assert(!text::white_space(name[0]) && !text::white_space(name[name.len() - 1]));
    assert(!text::white_space(value[0]) && !text::white_space(value.last()));
}

/// What a further line says of each key.
proof fn lemma_value_of_next_line(lines: Seq<Seq<char>>, key: ConfigKey, n: usize, asked: ConfigKey)
    ensures
        value_of(lines.push(config_line(key, n)), key_name(asked)) == if asked == key {
            Some(number::decimal(n as nat))
        } else {
            value_of(lines, key_name(asked))
        },
{
    lemma_config_line(key, n);
    lemma_key_names_differ(asked, key);
    let all = lines.push(config_line(key, n));
    assert(all.drop_last() == lines);
    assert(all.last() == config_line(key, n));
}

/// The lines of a configuration.
pub open spec fn config_lines(config: Config) -> Seq<Seq<char>> {
    Seq::empty().push(config_line(ConfigKey::VocabSize, config.vocab_size)).push(
        config_line(ConfigKey::NEmbd, config.n_embd),
    ).push(config_line(ConfigKey::NHead, config.n_head)).push(
        config_line(ConfigKey::NLayer, config.n_layer),
    ).push(config_line(ConfigKey::BlockSize, config.block_size))
}

/// The text of a configuration is made of its lines.
proof fn lemma_config_lines(config: Config)
    ensures
        text::split_lines(config_text(config)) == config_lines(config),
{
    let a = config_line(ConfigKey::VocabSize, config.vocab_size);
    let b = config_line(ConfigKey::NEmbd, config.n_embd);
    let c = config_line(ConfigKey::NHead, config.n_head);
    let d = config_line(ConfigKey::NLayer, config.n_layer);
    let e = config_line(ConfigKey::BlockSize, config.block_size);
    lemma_config_line(ConfigKey::VocabSize, config.vocab_size);
    lemma_config_line(ConfigKey::NEmbd, config.n_embd);
    lemma_config_line(ConfigKey::NHead, config.n_head);
    lemma_config_line(ConfigKey::NLayer, config.n_layer);
    lemma_config_line(ConfigKey::BlockSize, config.block_size);
    let none = Seq::<char>::empty();
    let from_e = e.push('\n') + none;
    let from_d = d.push('\n') + from_e;
    let from_c = c.push('\n') + from_d;
    let from_b = b.push('\n') + from_c;
    let from_a = a.push('\n') + from_b;
    assert(config_text(config) == from_a);
    assert(text::split_lines(none) == Seq::<Seq<char>>::empty());
    text::lemma_lines_of_line_and_rest(e, none);
    text::lemma_lines_of_line_and_rest(d, from_e);
    text::lemma_lines_of_line_and_rest(c, from_d);
    text::lemma_lines_of_line_and_rest(b, from_c);
    text::lemma_lines_of_line_and_rest(a, from_b);
    assert(text::split_lines(from_a) == config_lines(config));
}

/// A saved configuration gives each key its number.
proof fn lemma_saved_number(config: Config, key: ConfigKey)
    ensures
        number_of(config_lines(config), key) == Ok::<usize, ConfigErrorText>(
            match key {
                ConfigKey::VocabSize => config.vocab_size,
                ConfigKey::NEmbd => config.n_embd,
                ConfigKey::NHead => config.n_head,
                ConfigKey::NLayer => config.n_layer,
                ConfigKey::BlockSize => config.block_size,
            },
        ),
{
    let none = Seq::<Seq<char>>::empty();
    let a = none.push(config_line(ConfigKey::VocabSize, config.vocab_size));
    let b = a.push(config_line(ConfigKey::NEmbd, config.n_embd));
    let c = b.push(config_line(ConfigKey::NHead, config.n_head));
    let d = c.push(config_line(ConfigKey::NLayer, config.n_layer));
    lemma_value_of_next_line(none, ConfigKey::VocabSize, config.vocab_size, key);
    lemma_value_of_next_line(a, ConfigKey::NEmbd, config.n_embd, key);
    lemma_value_of_next_line(b, ConfigKey::NHead, config.n_head, key);
    lemma_value_of_next_line(c, ConfigKey::NLayer, config.n_layer, key);
    lemma_value_of_next_line(d, ConfigKey::BlockSize, config.block_size, key);
    number::law_decimal_reads_back(config.vocab_size as nat);
    number::law_decimal_reads_back(config.n_embd as nat);
    number::law_decimal_reads_back(config.n_head as nat);
    number::law_decimal_reads_back(config.n_layer as nat);
    number::law_decimal_reads_back(config.block_size as nat);
}

/// A configuration that was saved is read back as it was.
pub proof fn law_saved_reads_back(config: Config)
    ensures
        config_of(text::split_lines(config_text(config))) == Ok::<Config, ConfigErrorText>(config),
{
    lemma_config_lines(config);
    lemma_saved_number(config, ConfigKey::VocabSize);
    lemma_saved_number(config, ConfigKey::NEmbd);
    lemma_saved_number(config, ConfigKey::NHead);
    lemma_saved_number(config, ConfigKey::NLayer);
    lemma_saved_number(config, ConfigKey::BlockSize);
}

/// The names of the keys.
pub proof fn law_key_names()
    ensures
        key_name(ConfigKey::VocabSize) == "vocab_size"@,
        key_name(ConfigKey::NEmbd) == "n_embd"@,
        key_name(ConfigKey::NHead) == "n_head"@,
        key_name(ConfigKey::NLayer) == "n_layer"@,
        key_name(ConfigKey::BlockSize) == "block_size"@,
{
}

/// What a further line says: `left=right` gives `right` to the key `left`, both without the white
/// space around them, whatever the lines before said of it; it says nothing of other keys, and a
/// line without `'='` says nothing at all.
pub proof fn law_value_of_last_line(
    lines: Seq<Seq<char>>,
    left: Seq<char>,
    right: Seq<char>,
    key: Seq<char>,
)
    requires
        forall|j: int| 0 <= j < left.len() ==> #[trigger] left[j] != '=',
    ensures
        value_of(Seq::empty(), key) is None,
        text::trimmed(left) == key ==> value_of(lines.push(left + seq!['='] + right), key) == Some(
            text::trimmed(right),
        ),
        text::trimmed(left) != key ==> value_of(lines.push(left + seq!['='] + right), key)
            == value_of(lines, key),
        value_of(lines.push(left), key) == value_of(lines, key),
{
    let line = left + seq!['='] + right;
    let at = left.len() as int;
    assert forall|j: int| 0 <= j < at implies line[j] != '=' by {
        assert(line[j] == left[j]);
    }
    text::lemma_first_index_is(line, '=', at);
    text::lemma_first_index_is(left, '=', at);
    assert(line.take(at) == left);
    assert(line.skip(at + 1) == right);
    assert(lines.push(line).drop_last() == lines);
    assert(lines.push(left).drop_last() == lines);
}

/// A key has the number that its value reads as; a value that reads as none, and a key without a
/// value, are told with the key.
pub proof fn law_number_of(lines: Seq<Seq<char>>, key: ConfigKey)
    ensures
        match value_of(lines, key_name(key)) {
            Some(v) => match number::usize_value(v) {
                Some(n) => number_of(lines, key) == Ok::<usize, ConfigErrorText>(n as usize),
                None => number_of(lines, key) == Err::<usize, ConfigErrorText>(
                    ConfigErrorText::Invalid(key, v),
                ),
            },
            None => number_of(lines, key) == Err::<usize, ConfigErrorText>(
                ConfigErrorText::Missing(key),
            ),
        },
{
}

/// A configuration is read exactly where every key has a number, and then holds those numbers;
/// otherwise the error is that of the first key, in their order, that has none.
pub proof fn law_config_of(lines: Seq<Seq<char>>)
    ensures
        ({
            let v = number_of(lines, ConfigKey::VocabSize);
            let e = number_of(lines, ConfigKey::NEmbd);
            let h = number_of(lines, ConfigKey::NHead);
            let l = number_of(lines, ConfigKey::NLayer);
            let b = number_of(lines, ConfigKey::BlockSize);
            let c = config_of(lines);
            &&& c is Ok <==> v is Ok && e is Ok && h is Ok && l is Ok && b is Ok
            &&& c is Ok ==> {
                &&& c->Ok_0.vocab_size == v->Ok_0
                &&& c->Ok_0.n_embd == e->Ok_0
                &&& c->Ok_0.n_head == h->Ok_0
                &&& c->Ok_0.n_layer == l->Ok_0
                &&& c->Ok_0.block_size == b->Ok_0
            }
            &&& v is Err ==> c is Err && c->Err_0 == v->Err_0
            &&& v is Ok && e is Err ==> c is Err && c->Err_0 == e->Err_0
            &&& v is Ok && e is Ok && h is Err ==> c is Err && c->Err_0 == h->Err_0
            &&& v is Ok && e is Ok && h is Ok && l is Err ==> c is Err && c->Err_0 == l->Err_0
            &&& v is Ok && e is Ok && h is Ok && l is Ok && b is Err ==> c is Err && c->Err_0
                == b->Err_0
        }),
{
}

/// A configuration is saved as five lines `key=number`, in this order.
pub proof fn law_config_text(config: Config)
    ensures
        config_text(config) == "vocab_size="@ + number::decimal(config.vocab_size as nat)
            + seq!['\n'] + ("n_embd="@ + number::decimal(config.n_embd as nat) + seq!['\n']) + (
        "n_head="@ + number::decimal(config.n_head as nat) + seq!['\n']) + ("n_layer="@
            + number::decimal(config.n_layer as nat) + seq!['\n']) + ("block_size="@
            + number::decimal(config.block_size as nat) + seq!['\n']),
{
    reveal_strlit("=");
    reveal_strlit("vocab_size");
    reveal_strlit("vocab_size=");
    reveal_strlit("n_embd");
    reveal_strlit("n_embd=");
    reveal_strlit("n_head");
    reveal_strlit("n_head=");
    reveal_strlit("n_layer");
    reveal_strlit("n_layer=");
    reveal_strlit("block_size");
    reveal_strlit("block_size=");
    assert("vocab_size="@ == "vocab_size"@ + "="@);
    assert("n_embd="@ == "n_embd"@ + "="@);
    assert("n_head="@ == "n_head"@ + "="@);
    assert("n_layer="@ == "n_layer"@ + "="@);
    assert("block_size="@ == "block_size"@ + "="@);
}

/// What stands for an error: its kind, its key and the value.
pub proof fn law_error_text(e: ConfigError)
    ensures
        match e {
            ConfigError::Missing(key) => e@ == ConfigErrorText::Missing(key),
            ConfigError::Invalid(key, value) => e@ == ConfigErrorText::Invalid(key, value@),
        },
{
}

} // verus!
