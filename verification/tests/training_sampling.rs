use cryptogpt::dataset::CharTokenizer;
use cryptogpt::sampling::{context_window, initial_context, top_k_indices};
use cryptogpt::training::{get_batch, step_plan, train_split_point, windows_at, LOSS_REFRESH_INTERVAL};

#[test]
fn split_point_is_nine_tenths_rounded_down() {
    assert_eq!(train_split_point(100), 90);
    assert_eq!(train_split_point(15), 13);
    assert_eq!(train_split_point(9), 8);
    assert_eq!(train_split_point(1), 0);
    assert_eq!(train_split_point(0), 0);
    assert_eq!(train_split_point(1_115_394), 1_003_854);
    let n = usize::MAX;
    assert_eq!(train_split_point(n), (n as u128 * 9 / 10) as usize);
    for n in 0..1000usize {
        assert_eq!(train_split_point(n), (0.9 * n as f64) as usize);
    }
}

#[test]
fn step_plan_evaluates_periodically_and_at_the_end() {
    let p = step_plan(0, 100, 600);
    assert!(p.evaluate && p.refresh_loss);
    let p = step_plan(100, 100, 600);
    assert!(p.evaluate && p.refresh_loss);
    let p = step_plan(101, 100, 600);
    assert!(!p.evaluate && !p.refresh_loss);
    let p = step_plan(599, 100, 600);
    assert!(p.evaluate && !p.refresh_loss);
    let p = step_plan(40, 100, 600);
    assert!(!p.evaluate && p.refresh_loss);
    assert_eq!(LOSS_REFRESH_INTERVAL, 20);
    let evaluated: Vec<usize> = (0..600).filter(|&it| step_plan(it, 250, 600).evaluate).collect();
    assert_eq!(evaluated, vec![0, 250, 500, 599]);
}

#[test]
fn windows_at_cuts_inputs_and_next_token_targets() {
    let data: Vec<i64> = (10..30).collect();
    let b = windows_at(&data, vec![0, 5, 14], 4);
    assert_eq!(b.offsets, vec![0, 5, 14]);
    assert_eq!(b.inputs, vec![10, 11, 12, 13, 15, 16, 17, 18, 24, 25, 26, 27]);
    assert_eq!(b.targets, vec![11, 12, 13, 14, 16, 17, 18, 19, 25, 26, 27, 28]);
}

#[test]
fn get_batch_samples_valid_windows() {
    let data: Vec<i64> = (0..50).map(|x| x * 3).collect();
    let (batch_size, block_size) = (8, 6);
    for _ in 0..20 {
        let b = get_batch(&data, batch_size, block_size);
        assert_eq!(b.offsets.len(), batch_size);
        assert_eq!(b.inputs.len(), batch_size * block_size);
        assert_eq!(b.targets.len(), batch_size * block_size);
        for (r, &o) in b.offsets.iter().enumerate() {
            assert!(o < data.len() - block_size);
            for t in 0..block_size {
                assert_eq!(b.inputs[r * block_size + t], data[o + t]);
                assert_eq!(b.targets[r * block_size + t], data[o + t + 1]);
            }
        }
    }
}

#[test]
fn get_batch_with_one_possible_window() {
    let data: Vec<i64> = vec![7, 8, 9];
    let b = get_batch(&data, 3, 2);
    assert_eq!(b.offsets, vec![0, 0, 0]);
    assert_eq!(b.inputs, vec![7, 8, 7, 8, 7, 8]);
    assert_eq!(b.targets, vec![8, 9, 8, 9, 8, 9]);
}

#[test]
fn initial_context_encodes_prompt_or_starts_at_zero() {
    let tok = CharTokenizer::from_text("ROMEO:\n abc");
    assert_eq!(initial_context(&tok, "ROM"), tok.encode("ROM"));
    assert_eq!(initial_context(&tok, ""), vec![0]);
    assert_eq!(initial_context(&tok, "xyz"), vec![0]);
    assert_eq!(initial_context(&tok, "\n"), vec![0]);
    assert_eq!(initial_context(&tok, "a"), vec![tok.encode("a")[0]]);
}

#[test]
fn context_window_keeps_the_last_block() {
    let ids: Vec<i64> = (1..=10).collect();
    assert_eq!(context_window(&ids, 3), vec![8, 9, 10]);
    assert_eq!(context_window(&ids, 10), ids);
    assert_eq!(context_window(&ids, 50), ids);
    assert_eq!(context_window(&ids, 0), Vec::<i64>::new());
    assert_eq!(context_window(&[], 4), Vec::<i64>::new());
}

#[test]
fn top_k_picks_largest_keys_first() {
    let keys = [5u32, 9, 1, 7, 3];
    assert_eq!(top_k_indices(&keys, 3), vec![1, 3, 0]);
    assert_eq!(top_k_indices(&keys, 10), vec![1, 3, 0, 4, 2]);
    assert_eq!(top_k_indices(&keys, 0), Vec::<usize>::new());
    assert_eq!(top_k_indices(&[], 3), Vec::<usize>::new());
}

#[test]
fn top_k_with_ties_takes_some_of_the_equal_keys() {
    let keys = [2u32, 9, 9, 1];
    let r = top_k_indices(&keys, 2);
    let mut sorted = r.clone();
    sorted.sort();
    assert_eq!(sorted, vec![1, 2]);
    let r = top_k_indices(&keys, 3);
    assert_eq!(r[2], 0);
}

#[test]
fn top_k_orders_probabilities_by_their_bits() {
    let probs = [0.1f32, 0.25, 0.0, 0.6, 0.05];
    let keys: Vec<u32> = probs.iter().map(|p| p.to_bits()).collect();
    assert_eq!(top_k_indices(&keys, 2), vec![3, 1]);
    assert_eq!(top_k_indices(&keys, 5), vec![3, 1, 0, 4, 2]);
}
