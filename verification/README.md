# cmd-transformer

Records the shell's command history into SQLite, trains a GPT-style character-level language model
on it, and completes commands with the trained model.

- `src/` is a library, verified with Verus: the command lines, the training text, the tokenizer,
  the configuration, the split and the batches, the shape of the model, and the course of a
  completion. Each function states what it returns; proof functions named `law_..` state what holds
  across functions, such as that a saved vocabulary or configuration is read back as it was.
- `app/` is the programs around it, `cmd-record`, `train` and `infer`: the database, the files, and
  the transformer on floating-point tensors. One executable serves as all three, by the name it is
  called under.
- `tests/` runs the library.

Files are kept in `~/.local/share/cmd-transformer/`:

| File | Content |
|------|---------|
| `history.db` | The recorded commands |
| `model.safetensors` | Model weights |
| `vocab.txt` | Character vocabulary, a Unicode code point per line |
| `config.txt` | Hyperparameters, a line `key=value` each |

What is taken on trust: of the standard library, that `String::push` and `String::push_str` append
and that `char::from_u32` knows the Unicode scalar values; of `rand`, that `gen_range(0..n)` gives a
number less than `n`.
