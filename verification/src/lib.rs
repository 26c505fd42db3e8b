//! Shell history as training data for a character-level language model, and command completion
//! with the trained model.
//!
//! The library holds what the three programs decide and compute on text, numbers and tokens; the
//! database, the files and the tensors are the programs' own.
//!
//! - [`record`]: what the recorder keeps of a command that was run.
//! - [`history`]: the history as training text.
//! - [`vocab`]: the character-level tokenizer.
//! - [`config`]: the hyperparameters of a model, and the text that keeps them.
//! - [`model`]: widths, names and the causal mask of the model.
//! - [`train`]: what the trainer decides.
//! - [`infer`]: completing a command.
//! - [`paths`]: where the programs keep their files.
//! - [`text`] and [`number`]: splitting text, and numbers in it.

pub mod config;
pub mod history;
pub mod infer;
pub mod model;
pub mod number;
pub mod paths;
pub mod record;
pub mod text;
pub mod train;
pub mod vocab;
