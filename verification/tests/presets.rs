use cryptogpt::backend::{name, ComputeBackend};
use cryptogpt::config::{GptConfig, Preset};

#[test]
fn tiny_preset_values() {
    let p = Preset::get("tiny").unwrap();
    assert_eq!(p.n_layer, 4);
    assert_eq!(p.n_head, 4);
    assert_eq!(p.n_embd, 128);
    assert_eq!(p.block_size, 128);
    assert_eq!(p.batch_size, 32);
    assert_eq!(p.max_iters, 600);
    assert_eq!(p.eval_interval, 100);
    assert_eq!(p.eval_iters, 50);
    assert_eq!(p.lr_millionths, 1000);
    assert_eq!(p.warmup, 50);
}

#[test]
fn small_preset_values() {
    let p = Preset::get("small").unwrap();
    assert_eq!(p.n_layer, 6);
    assert_eq!(p.n_head, 6);
    assert_eq!(p.n_embd, 384);
    assert_eq!(p.block_size, 256);
    assert_eq!(p.batch_size, 64);
    assert_eq!(p.max_iters, 3000);
    assert_eq!(p.eval_interval, 250);
    assert_eq!(p.eval_iters, 100);
    assert_eq!(p.lr_millionths, 300);
    assert_eq!(p.warmup, 150);
}

#[test]
fn unknown_preset_is_none() {
    assert!(Preset::get("huge").is_none());
    assert!(Preset::get("Tiny").is_none());
    assert!(Preset::get("tiny ").is_none());
    assert!(Preset::get("").is_none());
}

#[test]
fn gpt_config_from_preset() {
    let p = Preset::get("small").unwrap();
    let c = p.gpt_config(65);
    assert_eq!(
        c,
        GptConfig {
            vocab_size: 65,
            block_size: 256,
            n_layer: 6,
            n_head: 6,
            n_embd: 384,
            dropout_millionths: 0,
            bias: true,
        }
    );
}

#[test]
fn default_gpt_config() {
    let c = GptConfig::default();
    assert_eq!(c.vocab_size, 256);
    assert_eq!(c.block_size, 128);
    assert_eq!(c.n_layer, 4);
    assert_eq!(c.n_head, 4);
    assert_eq!(c.n_embd, 128);
    assert_eq!(c.dropout_millionths, 0);
    assert!(c.bias);
}

#[test]
fn backend_names() {
    assert_eq!(name(), "ndarray (CPU)");
    assert_eq!(ComputeBackend::Cpu.name(), "ndarray (CPU)");
    assert_eq!(ComputeBackend::Gpu { metal_runtime: true }.name(), "wgpu+fusion (Metal runtime)");
    assert_eq!(
        ComputeBackend::Gpu { metal_runtime: false }.name(),
        "wgpu+fusion (Metal/Vulkan/DX12)"
    );
}
