use weighted_rand::builder::{NewBuilder, WalkerTableBuilder};
use weighted_rand::table::WalkerTable;

/// Scales floating-point proportions to integers the way the float path of
/// the normalizer does: times 10000, rounded, negatives clamped to zero.
fn scale_floats(ws: &[f32]) -> Vec<u32> {
    ws.iter().map(|w| (w * 10000.0).round() as u32).collect()
}

fn probs_as_f32(t: &WalkerTable) -> Vec<f32> {
    t.probs().iter().map(|p| *p as f32 / t.scale() as f32).collect()
}

/// How many of the `len * scale` equally likely (slot, value) pairs give
/// each index.
fn masses(t: &WalkerTable) -> Vec<u64> {
    let mut counts = vec![0u64; t.len()];
    for i in 0..t.len() {
        for r in 0..t.scale() {
            counts[t.pick(i, r)] += 1;
        }
    }
    counts
}

#[test]
fn make_table_from_u32() {
    let index_weights = [2, 7, 9, 2, 4, 8, 1, 3, 6, 5];
    let builder = WalkerTableBuilder::new(&index_weights);
    let w_table = builder.build();

    let expected_aliases = vec![2, 1, 1, 2, 2, 2, 5, 9, 5, 8];
    let expected_probs: Vec<f32> = vec![
        0.574468085106383,
        1.0,
        0.48936170212766,
        0.574468085106383,
        0.148936170212766,
        0.106382978723404,
        0.787234042553192,
        0.361702127659574,
        0.0212765957446809,
        0.297872340425532,
    ];

    assert_eq!(w_table.aliases(), expected_aliases.as_slice());
    assert_eq!(probs_as_f32(&w_table), expected_probs);
}

#[test]
fn make_table_from_f32() {
    let index_weights = [0.1, 0.2, 0.3, -0.4];
    let builder = WalkerTableBuilder::from_scaled(&scale_floats(&index_weights));
    let w_table = builder.build();

    let expected_aliases = vec![1, 1, 1, 2];
    let expected_probs: Vec<f32> = vec![0.333333333333333, 1.0, 0.0, 1.0];

    assert_eq!(w_table.aliases(), expected_aliases.as_slice());
    assert_eq!(probs_as_f32(&w_table), expected_probs);
}

#[test]
fn when_sum_is_zero() {
    let index_weights = [0; 5];
    let builder = WalkerTableBuilder::new(&index_weights);
    let w_table = builder.build();

    // Every slot keeps its own index and never jumps.
    assert_eq!(w_table.aliases(), &[0, 1, 2, 3, 4]);
    assert_eq!(probs_as_f32(&w_table), vec![0.0; 5]);
}

#[test]
fn integer_weights_are_multiplied_by_their_number() {
    let builder = WalkerTableBuilder::new(&[2u32, 1, 7, 0]);
    assert_eq!(builder.weights(), &[8, 4, 28, 0]);
}

#[test]
fn float_weights_are_reduced_by_their_common_divisor() {
    // 1000, 2000, 3000, 4000 share 1000, which leaves 1, 2, 3, 4; then
    // each is multiplied by 4.
    let builder = WalkerTableBuilder::from_scaled(&scale_floats(&[0.1, 0.2, 0.3, 0.4]));
    assert_eq!(builder.weights(), &[4, 8, 12, 16]);
}

#[test]
fn all_zero_scaled_weights_stay_zero() {
    let builder = WalkerTableBuilder::from_scaled(&[0, 0, 0]);
    assert_eq!(builder.weights(), &[0, 0, 0]);
}

#[test]
fn inverse_swaps_extremes_and_mirrors_the_rest() {
    // Normalized weights 8, 4, 28, 0: the greatest (28) and least (0)
    // swap, and 8, 4 become 28 - 8, 28 - 4.
    let builder = WalkerTableBuilder::new(&[2u32, 1, 7, 0]).inverse();
    assert_eq!(builder.weights(), &[20, 24, 0, 28]);
}

#[test]
fn inverse_twice_restores_weights_with_zero_minimum() {
    let builder = WalkerTableBuilder::new(&[2u32, 1, 7, 0]).inverse().inverse();
    assert_eq!(builder.weights(), &[8, 4, 28, 0]);
}

#[test]
fn inverse_of_equal_weights_keeps_them() {
    let builder = WalkerTableBuilder::new(&[3u32, 3, 3]).inverse();
    assert_eq!(builder.weights(), &[9, 9, 9]);
}

#[test]
fn inverse_of_no_weights_is_empty() {
    let builder = WalkerTableBuilder::new(&[] as &[u32]).inverse();
    assert_eq!(builder.weights(), &[] as &[u32]);
}

#[test]
fn masses_are_the_weights() {
    let table = WalkerTableBuilder::new(&[2u32, 1, 7, 0]).build();
    assert_eq!(table.scale(), 10);
    assert_eq!(masses(&table), vec![8, 4, 28, 0]);
}

#[test]
fn masses_of_a_longer_table_are_the_weights() {
    let index_weights = [2u32, 7, 9, 2, 4, 8, 1, 3, 6, 5];
    let table = WalkerTableBuilder::new(&index_weights).build();
    let expected: Vec<u64> = index_weights.iter().map(|w| *w as u64 * 10).collect();
    assert_eq!(masses(&table), expected);
}

#[test]
fn zero_weight_has_no_slot_or_value() {
    let table = WalkerTableBuilder::new(&[0u32, 5, 0, 3]).build();
    for i in 0..table.len() {
        for r in 0..table.scale() {
            let k = table.pick(i, r);
            assert!(k == 1 || k == 3);
        }
    }
}

#[test]
fn all_zero_weights_give_uniform_masses() {
    let table = WalkerTableBuilder::new(&[0u32; 4]).build();
    assert_eq!(table.scale(), 1);
    assert_eq!(masses(&table), vec![1, 1, 1, 1]);
}

#[test]
fn float_weights_match_integer_weights() {
    let from_floats = WalkerTableBuilder::from_scaled(&scale_floats(&[0.1, 0.2, 0.3, 0.4])).build();
    let from_ints = WalkerTableBuilder::new(&[1u32, 2, 3, 4]).build();
    assert_eq!(from_floats.scale(), from_ints.scale());
    assert_eq!(masses(&from_floats), masses(&from_ints));
    assert_eq!(masses(&from_ints), vec![4, 8, 12, 16]);
}

#[test]
fn building_twice_gives_the_same_distribution() {
    let builder = WalkerTableBuilder::new(&[5u32, 0, 1, 9, 9]);
    let first = builder.build();
    let second = builder.build();
    assert_eq!(first.scale(), second.scale());
    assert_eq!(masses(&first), masses(&second));
}

#[test]
fn single_weight_always_keeps_its_index() {
    let table = WalkerTableBuilder::new(&[7u32]).build();
    assert_eq!(masses(&table), vec![7]);
    assert_eq!(table.next(), 0);
}

#[test]
fn no_weights_give_an_empty_table() {
    let table = WalkerTableBuilder::new(&[] as &[u32]).build();
    assert_eq!(table.len(), 0);
}
