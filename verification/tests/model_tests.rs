use rwkv7::model::{
    is_flattened, layer_count, layer_index, model_dims, needs_transpose, zero_state_shapes,
    ForwardPath, IdxInput, RWKVArgs, HEAD_SIZE,
};
use rwkv7::schedule::{advance_positions, all_same_length, next_batch_step, plan_batch};
use rwkv7::generation::{tokens_by_sequence, until_end_of_text};

fn steps_of(lengths: &[usize]) -> Vec<(Vec<usize>, Vec<usize>, usize)> {
    plan_batch(lengths).into_iter().map(|s| (s.active, s.starts, s.step)).collect()
}

#[test]
fn same_length_check() {
    assert!(all_same_length(&[3, 3, 3]));
    assert!(all_same_length(&[]));
    assert!(!all_same_length(&[3, 2, 3]));
}

#[test]
fn plan_feeds_shortest_remaining_first() {
    assert_eq!(
        steps_of(&[3, 1, 2]),
        vec![
            (vec![0, 1, 2], vec![0, 0, 0], 1),
            (vec![0, 2], vec![1, 1], 1),
            (vec![0], vec![2], 1),
        ]
    );
    assert_eq!(steps_of(&[4, 4]), vec![(vec![0, 1], vec![0, 0], 4)]);
    assert_eq!(steps_of(&[0, 5, 2]), vec![(vec![1, 2], vec![0, 0], 2), (vec![1], vec![2], 3)]);
    assert_eq!(steps_of(&[]), vec![]);
    assert_eq!(steps_of(&[0, 0]), vec![]);
}

#[test]
fn schedule_feeds_every_token_once() {
    let lengths = [7usize, 2, 9, 2, 5, 1];
    let mut fed = vec![0usize; lengths.len()];
    for s in plan_batch(&lengths) {
        for (k, &i) in s.active.iter().enumerate() {
            assert_eq!(s.starts[k], fed[i]);
            fed[i] += s.step;
            assert!(fed[i] <= lengths[i]);
        }
    }
    assert_eq!(fed, lengths.to_vec());
}

#[test]
fn step_and_advance() {
    let lengths = [5usize, 3];
    let mut pos = vec![1usize, 0];
    let s = next_batch_step(&lengths, &pos).unwrap();
    assert_eq!((s.active.clone(), s.starts.clone(), s.step), (vec![0, 1], vec![1, 0], 3));
    advance_positions(&mut pos, &lengths, &s);
    assert_eq!(pos, vec![4, 3]);
    let s = next_batch_step(&lengths, &pos).unwrap();
    assert_eq!((s.active.clone(), s.starts.clone(), s.step), (vec![0], vec![4], 1));
    advance_positions(&mut pos, &lengths, &s);
    assert!(next_batch_step(&lengths, &pos).is_none());
}

#[test]
fn forward_path_choice() {
    assert_eq!(IdxInput::Single(5).forward_path(), ForwardPath::One(5));
    assert_eq!(IdxInput::Sequence(vec![8]).forward_path(), ForwardPath::One(8));
    assert_eq!(IdxInput::Sequence(vec![8, 9]).forward_path(), ForwardPath::Sequence);
}

#[test]
fn weight_names() {
    assert!(needs_transpose("blocks.3.att.key.weight"));
    assert!(needs_transpose("blocks.3.ffn.value.weight"));
    assert!(needs_transpose("blocks.0.att.receptance.weight"));
    assert!(needs_transpose("blocks.0.att.output.weight"));
    assert!(needs_transpose("head.weight"));
    assert!(!needs_transpose("emb.weight"));
    assert!(!needs_transpose("blocks.0.ln1.weight"));
    assert!(is_flattened("blocks.11.att.r_k"));
    assert!(!is_flattened("blocks.11.att.r_k2"));
    assert!(!is_flattened("r_k"));
}

#[test]
fn layer_indices() {
    assert_eq!(layer_index("blocks.12.att.x_r"), Some(12));
    assert_eq!(layer_index("blocks.7"), Some(7));
    assert_eq!(layer_index("blocks.-2.x"), Some(-2));
    assert_eq!(layer_index("blocks.x.y"), None);
    assert_eq!(layer_index("blocks..y"), None);
    assert_eq!(layer_index("emb.weight"), None);
    assert_eq!(layer_index("block.1.x"), None);
}

#[test]
fn layer_counting() {
    let keys: Vec<String> = ["emb.weight", "blocks.0.ln0.weight", "blocks.11.att.r_k", "blocks.3.ffn.key.weight", "head.weight"]
        .iter()
        .map(|s| s.to_string())
        .collect();
    assert_eq!(layer_count(&keys), 12);
    assert_eq!(layer_count(&vec!["emb.weight".to_string()]), 0);
    assert_eq!(layer_count(&vec![]), 0);
}

#[test]
fn dims_from_weights() {
    let keys: Vec<String> = vec!["blocks.0.att.r_k".to_string(), "blocks.1.att.r_k".to_string()];
    let d = model_dims((12, 64), &keys).unwrap();
    assert_eq!((d.n_layer, d.n_embd, d.n_head, d.head_size), (2, 768, 12, 64));
    assert!(model_dims((12, 32), &keys).is_none());
    assert!(model_dims((i64::MAX, 64), &keys).is_none());
}

#[test]
fn zero_state_shape_values() {
    assert_eq!(zero_state_shapes(12, 768, 4), (vec![12, 2, 4, 768], vec![12, 4, 12, 64, 64]));
    assert_eq!(zero_state_shapes(12, 768, 0), (vec![12, 2, 768], vec![12, 12, 64, 64]));
    assert_eq!(HEAD_SIZE, 64);
}

#[test]
fn args_hold_values() {
    let a = RWKVArgs { vocab_size: 65536, head_size: 64, model_name: "m".to_string() };
    assert_eq!((a.vocab_size, a.head_size, a.model_name.as_str()), (65536, 64, "m"));
}

#[test]
fn text_ends_at_first_end_of_text() {
    assert_eq!(until_end_of_text(&[5, 6, 0, 7, 0]), vec![5, 6]);
    assert_eq!(until_end_of_text(&[5, 6, 7]), vec![5, 6, 7]);
    assert_eq!(until_end_of_text(&[0, 1]), Vec::<i64>::new());
    assert_eq!(until_end_of_text(&[]), Vec::<i64>::new());
}

#[test]
fn steps_become_rows() {
    let steps = vec![vec![1, 2, 3], vec![4, 5, 6]];
    assert_eq!(tokens_by_sequence(&steps, 3, 2), vec![vec![1, 4], vec![2, 5], vec![3, 6]]);
    let short = vec![vec![1], vec![4, 5]];
    assert_eq!(tokens_by_sequence(&short, 2, 3), vec![vec![1, 4, 0], vec![0, 5, 0]]);
    assert_eq!(tokens_by_sequence(&Vec::new(), 2, 0), vec![Vec::<i64>::new(), Vec::new()]);
}
