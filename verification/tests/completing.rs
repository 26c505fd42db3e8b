use cmd_transformer::infer;
use cmd_transformer::infer::Args;
use cmd_transformer::infer::ArgsError;
use cmd_transformer::infer::Completion;
use cmd_transformer::vocab::Vocab;

fn parse(args: &[&str]) -> Result<Args, ArgsError> {
    let mut argv: Vec<String> = vec!["infer".to_string()];
    argv.extend(args.iter().map(|a| a.to_string()));
    Args::parse(&argv)
}

#[test]
fn a_prefix_is_enough() {
    let args = parse(&["cargo"]).ok().unwrap();
    assert_eq!(args.prefix, "cargo");
    assert_eq!(args.temperature, "0.8");
    assert_eq!(args.temperature.parse::<f64>().unwrap(), 0.8);
    assert_eq!(args.max_tokens, 200);
}

#[test]
fn options_stand_anywhere() {
    let args = parse(&["git", "--temperature", "0.3"]).ok().unwrap();
    assert_eq!(args.prefix, "git");
    assert_eq!(args.temperature, "0.3");
    let args = parse(&["-n", "5", "-t", "1e-1", "[/home/user/projects/myapp] git "]).ok().unwrap();
    assert_eq!(args.prefix, "[/home/user/projects/myapp] git ");
    assert_eq!(args.temperature, "1e-1");
    assert_eq!(args.max_tokens, 5);
}

#[test]
fn the_last_word_counts() {
    let args = parse(&["a", "-t", "1", "--temperature", "-2", "b", "--max-tokens", "1", "-n", "0"]);
    let args = args.ok().unwrap();
    assert_eq!(args.prefix, "b");
    assert_eq!(args.temperature, "-2");
    assert_eq!(args.max_tokens, 0);
}

#[test]
fn what_is_wrong_with_a_command_line() {
    let e = parse(&["git", "--temperature"]).err().unwrap();
    assert!(matches!(e, ArgsError::NoTemperature));
    assert_eq!(e.message().unwrap(), "--temperature requires a value");
    let e = parse(&["git", "-t"]).err().unwrap();
    assert!(matches!(e, ArgsError::NoTemperature));
    let e = parse(&["git", "-n"]).err().unwrap();
    assert!(matches!(e, ArgsError::NoMaxTokens));
    assert_eq!(e.message().unwrap(), "--max-tokens requires a value");
    let e = parse(&["-t", "warm", "--what"]).err().unwrap();
    assert_eq!(e.message(), None);
    assert!(matches!(e, ArgsError::BadTemperature(s) if s == "warm"));
    let e = parse(&["-n", "-1", "--what"]).err().unwrap();
    assert_eq!(e.message(), None);
    assert!(matches!(e, ArgsError::BadMaxTokens(s) if s == "-1"));
    let e = parse(&["git", "--what", "-t", "warm"]).err().unwrap();
    assert_eq!(e.message().unwrap(), "unknown argument: --what");
    let e = parse(&["-"]).err().unwrap();
    assert!(matches!(e, ArgsError::Unknown(s) if s == "-"));
}

#[test]
fn something_has_to_be_completed() {
    let usage = "usage: infer <prefix> [--temperature 0.8] [--max-tokens 200]";
    for args in [vec![], vec![""], vec!["a", ""], vec!["-n", "3"]] {
        let e = parse(&args).err().unwrap();
        assert!(matches!(e, ArgsError::NoPrefix));
        assert_eq!(e.message().unwrap(), usage);
    }
    assert!(matches!(Args::parse(&Vec::new()).err().unwrap(), ArgsError::NoPrefix));
}

#[test]
fn the_model_sees_the_last_block() {
    let tokens: Vec<u32> = vec![1, 2, 3, 4, 5];
    assert_eq!(infer::context_window(&tokens, 3), vec![3, 4, 5]);
    assert_eq!(infer::context_window(&tokens, 5), tokens);
    assert_eq!(infer::context_window(&tokens, 128), tokens);
    assert_eq!(infer::context_window(&tokens, 0), Vec::<u32>::new());
}

#[test]
fn the_first_sum_above_the_number_is_taken() {
    assert_eq!(infer::sample_token(&vec![true, true, true]), 0);
    assert_eq!(infer::sample_token(&vec![false, false, true, true]), 2);
    assert_eq!(infer::sample_token(&vec![false, true, false]), 1);
    // Rounding may keep the number above every sum.
    assert_eq!(infer::sample_token(&vec![false, false, false]), 2);
    assert_eq!(infer::sample_token(&vec![false]), 0);
}

#[test]
fn a_prefix_needs_a_known_character() {
    let vocab = Vocab::build("abc\n");
    let e = Completion::start(&vocab, "xyz", 3).err().unwrap();
    assert_eq!(e.prefix, "xyz");
    assert_eq!(e.message(), "prefix 'xyz' contains no known characters");
    let completion = Completion::start(&vocab, "xa", 3).ok().unwrap();
    assert_eq!(completion.tokens, vec![1]);
    assert_eq!(completion.remaining, 3);
}

#[test]
fn a_completion_stops_at_a_newline() {
    let vocab = Vocab::build("abc\n");
    let mut completion = Completion::start(&vocab, "a", 200).ok().unwrap();
    assert_eq!(completion.next_context(128), Some(vec![1]));
    assert_eq!(completion.step(&vocab, 2), Some('b'));
    assert_eq!(completion.step(&vocab, 3), Some('c'));
    assert_eq!(completion.next_context(128), Some(vec![1, 2, 3]));
    assert_eq!(completion.next_context(2), Some(vec![2, 3]));
    assert_eq!(completion.tokens, vocab.encode("abc"));
    assert_eq!(completion.remaining, 198);
    assert_eq!(completion.step(&vocab, 0), None);
    assert_eq!(completion.next_context(128), None);
    assert_eq!(completion.tokens, vocab.encode("abc"));
}

#[test]
fn a_completion_stops_at_an_unknown_token() {
    let vocab = Vocab::build("abc\n");
    let mut completion = Completion::start(&vocab, "a", 2).ok().unwrap();
    assert_eq!(completion.step(&vocab, 4), None);
    assert_eq!(completion.remaining, 0);
    assert_eq!(completion.next_context(8), None);
}

#[test]
fn a_completion_stops_after_so_many_characters() {
    let vocab = Vocab::build("abc\n");
    let mut completion = Completion::start(&vocab, "a", 2).ok().unwrap();
    let mut added = String::new();
    while completion.next_context(8).is_some() {
        if let Some(c) = completion.step(&vocab, 1) {
            added.push(c);
        }
    }
    assert_eq!(added, "aa");
    assert_eq!(completion.tokens, vocab.encode("aaa"));
    let none = Completion::start(&vocab, "a", 0).ok().unwrap();
    assert_eq!(none.next_context(8), None);
}
