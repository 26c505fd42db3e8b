use cmd_transformer::config::Config;
use cmd_transformer::config::ConfigError;
use cmd_transformer::config::ConfigKey;
use cmd_transformer::train;
use cmd_transformer::vocab::Vocab;

fn decoded(vocab: &Vocab, tokens: &Vec<u32>) -> String {
    tokens.iter().map(|t| vocab.decode_char(*t).unwrap()).collect()
}

#[test]
fn a_vocabulary_holds_the_characters_of_its_text_in_order() {
    let vocab = Vocab::build("banana\nébé😀");
    assert_eq!(vocab.size(), 6);
    let all: Vec<char> = (0..6).map(|i| vocab.decode_char(i).unwrap()).collect();
    assert_eq!(all, vec!['\n', 'a', 'b', 'n', 'é', '😀']);
    assert_eq!(vocab.decode_char(6), None);
    assert_eq!(vocab.decode_char(u32::MAX), None);
    assert_eq!(Vocab::build("").size(), 0);
}

#[test]
fn texts_of_known_characters_decode_to_themselves() {
    let text = "[/home/u] git status\n[/] ls é\n";
    let vocab = Vocab::build(text);
    let tokens = vocab.encode(text);
    assert_eq!(tokens.len(), text.chars().count());
    assert_eq!(decoded(&vocab, &tokens), text);
    assert!(tokens.iter().all(|t| (*t as usize) < vocab.size()));
}

#[test]
fn unknown_characters_are_left_out() {
    let vocab = Vocab::build("abc");
    assert_eq!(vocab.encode("cab"), vec![2, 0, 1]);
    assert_eq!(vocab.encode("xaybz"), vec![0, 1]);
    assert_eq!(decoded(&vocab, &vocab.encode("cxaybzc")), "cabc");
    assert_eq!(vocab.encode("xyz"), Vec::<u32>::new());
    assert_eq!(vocab.encode(""), Vec::<u32>::new());
}

#[test]
fn tokens_of_two_texts_follow_each_other() {
    let vocab = Vocab::build("abc");
    let mut both = vocab.encode("ax");
    both.extend(vocab.encode("cb"));
    assert_eq!(vocab.encode("axcb"), both);
}

#[test]
fn a_saved_vocabulary_reads_back() {
    let vocab = Vocab::build("ab\n😀");
    let text = vocab.save();
    assert_eq!(text, "10\n97\n98\n128512\n");
    let again = Vocab::load(&text).ok().unwrap();
    assert_eq!(again.size(), 4);
    for i in 0..4 {
        assert_eq!(again.decode_char(i), vocab.decode_char(i));
    }
    assert_eq!(again.encode("b\na"), vec![2, 0, 1]);
    assert_eq!(Vocab::build("").save(), "\n");
    assert_eq!(Vocab::load("\n").ok().unwrap().size(), 0);
    assert_eq!(Vocab::build("x").save(), "120\n");
}

#[test]
fn vocabularies_are_read_line_by_line() {
    let vocab = Vocab::load("98\r\n\n+97\n\n99").ok().unwrap();
    assert_eq!(vocab.encode("abc"), vec![1, 0, 2]);
    // A character that stands twice has its last index as token.
    let twice = Vocab::load("97\n98\n97\n").ok().unwrap();
    assert_eq!(twice.size(), 3);
    assert_eq!(twice.encode("ab"), vec![2, 1]);
    assert_eq!(twice.decode_char(0), Some('a'));
    assert_eq!(Vocab::load("").ok().unwrap().size(), 0);
}

#[test]
fn the_first_bad_line_is_an_error() {
    for (text, line) in [
        ("97\n 98\n", " 98"),
        ("97\nx\ny\n", "x"),
        ("55296\n", "55296"),
        ("57343", "57343"),
        ("1114112\n", "1114112"),
        ("4294967296\n", "4294967296"),
        ("-1\n", "-1"),
        ("97\r", "97\r"),
    ] {
        let e = Vocab::load(text).err().unwrap();
        assert_eq!(e.line, line);
        assert_eq!(e.message(), format!("invalid code point: {}", line));
    }
    assert_eq!(Vocab::load("55295\n57344\n1114111\n").ok().unwrap().size(), 3);
}

#[test]
fn a_saved_configuration_reads_back() {
    let config = train::trained_config(95);
    let text = config.save();
    assert_eq!(text, "vocab_size=95\nn_embd=128\nn_head=4\nn_layer=4\nblock_size=128\n");
    assert_eq!(Config::load(&text).ok().unwrap(), config);
    let odd = Config { vocab_size: 0, n_embd: usize::MAX, n_head: 10, n_layer: 1, block_size: 7 };
    assert_eq!(Config::load(&odd.save()).ok().unwrap(), odd);
}

#[test]
fn configurations_may_be_written_by_hand() {
    let text = "# a model\r\n block_size = 8 \nn_embd=1\nn_embd\t=\u{3000}16\n\nn_head=2=\nn_head=2\nn_layer=+3\n=9\nvocab_size=5";
    let config = Config::load(text).ok().unwrap();
    assert_eq!(
        config,
        Config { vocab_size: 5, n_embd: 16, n_head: 2, n_layer: 3, block_size: 8 }
    );
}

#[test]
fn what_is_wrong_with_a_configuration() {
    let e = Config::load("").err().unwrap();
    assert!(matches!(e, ConfigError::Missing(ConfigKey::VocabSize)));
    assert_eq!(e.message(), "missing key 'vocab_size' in config");
    let e = Config::load("vocab_size=1\nn_embd=1\nn_head=1\nblock_size=1\n").err().unwrap();
    assert!(matches!(e, ConfigError::Missing(ConfigKey::NLayer)));
    let e = Config::load("vocab_size=1\nn_embd= 1x \nn_head=y\n").err().unwrap();
    assert_eq!(e.message(), "invalid value for 'n_embd'");
    match e {
        ConfigError::Invalid(key, value) => {
            assert_eq!(key, ConfigKey::NEmbd);
            assert_eq!(key.name(), "n_embd");
            assert_eq!(value, "1x");
        }
        ConfigError::Missing(_) => panic!("the key is there"),
    }
    let e = Config::load("vocab_size=1\nn_embd=1\nn_head=1\nn_layer=1\nblock_size=a=1").err().unwrap();
    assert_eq!(e.message(), "invalid value for 'block_size'");
    let e = Config::load("vocab_size=1\nn_embd=1\nn_layer=1\nblock_size=1").err().unwrap();
    assert_eq!(e.message(), "missing key 'n_head' in config");
}

#[test]
fn a_vocabulary_depends_on_the_set_of_characters_only() {
    assert_eq!(Vocab::build("cab").save(), Vocab::build("abcabcc").save());
    assert_ne!(Vocab::build("cab").save(), Vocab::build("ab").save());
}
