//! Model and training presets.
//!
//! `GptConfig` describes the architecture; `Preset` bundles an architecture
//! with the optimizer and loop settings tuned to a target wall-clock time:
//! `tiny` runs in about a minute on a laptop, `small` in minutes.
//!
//! Rates are held exactly, as integer millionths (a dropout of 0.1 is
//! `100_000`, a learning rate of 3e-4 is `300`).
use vstd::prelude::*;

use crate::text::same_text;

verus! {

/// Architecture description, saved with a checkpoint so that the same model
/// can be rebuilt.
#[derive(Clone, Debug, PartialEq, Eq)]
pub struct GptConfig {
    /// Number of tokens; set at train time from the tokenizer.
    pub vocab_size: usize,
    /// Context length: how many tokens the model attends to.
    pub block_size: usize,
    /// Number of transformer blocks.
    pub n_layer: usize,
    /// Attention heads per block.
    pub n_head: usize,
    /// Embedding / residual stream width.
    pub n_embd: usize,
    /// Dropout probability, in millionths.
    pub dropout_millionths: u32,
    /// Whether the linear and normalisation layers carry a bias.
    pub bias: bool,
}

/// The architecture used when nothing else is given.
pub open spec fn default_gpt_config() -> GptConfig {
    GptConfig {
        vocab_size: 256,
        block_size: 128,
        n_layer: 4,
        n_head: 4,
        n_embd: 128,
        dropout_millionths: 0,
        bias: true,
    }
}

impl Default for GptConfig {
    fn default() -> (c: Self)
        ensures
            c == default_gpt_config(),
    {
        GptConfig {
            vocab_size: 256,
            block_size: 128,
            n_layer: 4,
            n_head: 4,
            n_embd: 128,
            dropout_millionths: 0,
            bias: true,
        }
    }
}

/// Architecture plus optimizer and loop settings.
#[derive(Clone, Debug, PartialEq, Eq)]
pub struct Preset {
    pub n_layer: usize,
    pub n_head: usize,
    pub n_embd: usize,
    pub block_size: usize,
    pub batch_size: usize,
    pub max_iters: usize,
    pub eval_interval: usize,
    pub eval_iters: usize,
    /// Base learning rate, in millionths.
    pub lr_millionths: u32,
    /// Iterations of linear learning-rate warmup.
    pub warmup: usize,
}

/// The `tiny` preset: seconds to a minute on a laptop.
pub open spec fn tiny_preset() -> Preset {
    Preset {
        n_layer: 4,
        n_head: 4,
        n_embd: 128,
        block_size: 128,
        batch_size: 32,
        max_iters: 600,
        eval_interval: 100,
        eval_iters: 50,
        lr_millionths: 1000,
        warmup: 50,
    }
}

/// The `small` preset: minutes, and a noticeably better model.
pub open spec fn small_preset() -> Preset {
    Preset {
        n_layer: 6,
        n_head: 6,
        n_embd: 384,
        block_size: 256,
        batch_size: 64,
        max_iters: 3000,
        eval_interval: 250,
        eval_iters: 100,
        lr_millionths: 300,
        warmup: 150,
    }
}

/// The preset of a name, if there is one of that name.
pub open spec fn preset_named(name: Seq<char>) -> Option<Preset> {
    if name == "tiny"@ {
        Some(tiny_preset())
    } else if name == "small"@ {
        Some(small_preset())
    } else {
        None
    }
}

/// The architecture of `p` for a vocabulary of `vocab_size` tokens: no
/// dropout, with biases.
pub open spec fn config_of(p: Preset, vocab_size: usize) -> GptConfig {
    GptConfig {
        vocab_size,
        block_size: p.block_size,
        n_layer: p.n_layer,
        n_head: p.n_head,
        n_embd: p.n_embd,
        dropout_millionths: 0,
        bias: true,
    }
}

/// Only the names `tiny` and `small` name a preset: every other name (such
/// as `medium` or `Tiny`) has none. `tiny` is the 4-layer, 600-step preset and
/// `small` the 6-layer, 3000-step one.
pub proof fn lemma_only_two_presets(name: Seq<char>)
    ensures
        preset_named(name) is Some <==> (name == "tiny"@ || name == "small"@),
        name == "tiny"@ ==> (preset_named(name) matches Some(p) && p.n_layer == 4 && p.max_iters
            == 600),
        name == "small"@ ==> (preset_named(name) matches Some(p) && p.n_layer == 6 && p.max_iters
            == 3000),
{
    reveal_strlit("tiny");
    reveal_strlit("small");
    if name == "small"@ {
        assert("small"@[0] != "tiny"@[0]);
    }
}

impl Preset {
    /// Looks up a preset by name (`"tiny"` or `"small"`).
    pub fn get(name: &str) -> (p: Option<Preset>)
        ensures
            p == preset_named(name@),
            p is Some <==> (name@ == "tiny"@ || name@ == "small"@),
    {
        if same_text(name, "tiny") {
            Some(
                Preset {
                    n_layer: 4,
                    n_head: 4,
                    n_embd: 128,
                    block_size: 128,
                    batch_size: 32,
                    max_iters: 600,
                    eval_interval: 100,
                    eval_iters: 50,
                    lr_millionths: 1000,
                    warmup: 50,
                },
            )
        } else if same_text(name, "small") {
            Some(
                Preset {
                    n_layer: 6,
                    n_head: 6,
                    n_embd: 384,
                    block_size: 256,
                    batch_size: 64,
                    max_iters: 3000,
                    eval_interval: 250,
                    eval_iters: 100,
                    lr_millionths: 300,
                    warmup: 150,
                },
            )
        } else {
            None
        }
    }

    /// Builds a `GptConfig` from this preset and a vocabulary size.
    pub fn gpt_config(&self, vocab_size: usize) -> (c: GptConfig)
        ensures
            c == config_of(*self, vocab_size),
    {
        GptConfig {
            vocab_size,
            block_size: self.block_size,
            n_layer: self.n_layer,
            n_head: self.n_head,
            n_embd: self.n_embd,
            dropout_millionths: 0,
            bias: true,
        }
    }
}

} // verus!
