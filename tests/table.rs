use rand::rngs::StdRng;
use rand::SeedableRng;
use weighted_rand::builder::{NewBuilder, WalkerTableBuilder};
use weighted_rand::error::WeightedRandError;
use weighted_rand::table::WalkerTable;

const N: usize = 100_000;

fn count<T: PartialEq>(slice: &[T], target: T) -> f32 {
    slice
        .iter()
        .fold(0.0, |acc, cur| if *cur == target { acc + 1.0 } else { acc })
}

#[test]
fn unweighted_random_sampling() {
    let index_weights = [0; 4];
    let builder = WalkerTableBuilder::new(&index_weights);
    let wa_table = builder.build();

    let mut rng = StdRng::seed_from_u64(20);

    let idxs = (0..N)
        .map(|_| wa_table.next_rng(&mut rng))
        .collect::<Vec<usize>>();

    let i_0 = count(&idxs, 0);
    let i_1 = count(&idxs, 1);
    let i_2 = count(&idxs, 2);
    let i_3 = count(&idxs, 3);

    const EXPT: f32 = N as f32 * 0.25;
    assert!(
        (EXPT * 0.95 < i_0 && i_0 < EXPT * 1.05)
            && (EXPT * 0.95 < i_1 && i_1 < EXPT * 1.05)
            && (EXPT * 0.95 < i_2 && i_2 < EXPT * 1.05)
            && (EXPT * 0.95 < i_3 && i_3 < EXPT * 1.05)
    )
}

#[test]
fn weighted_random_sampling() {
    let index_weights = [2, 1, 7, 0];
    let builder = WalkerTableBuilder::new(&index_weights);
    let wa_table = builder.build();

    let idxs = (0..N).map(|_| wa_table.next()).collect::<Vec<usize>>();

    let i_0 = count(&idxs, 0);
    let i_1 = count(&idxs, 1);
    let i_2 = count(&idxs, 2);
    let i_3 = count(&idxs, 3);

    const EXPT: [f32; 4] = [N as f32 * 0.2, N as f32 * 0.1, N as f32 * 0.7, 0.0];
    assert!(
        (EXPT[0] * 0.95 < i_0 && i_0 < EXPT[0] * 1.05)
            && (EXPT[1] * 0.95 < i_1 && i_1 < EXPT[1] * 1.05)
            && (EXPT[2] * 0.95 < i_2 && i_2 < EXPT[2] * 1.05)
            && (EXPT[3] == i_3)
    )
}

#[test]
fn weighted_sampling_with_given_generator() {
    let wa_table = WalkerTableBuilder::new(&[2u32, 1, 7, 0]).build();
    let mut rng = StdRng::seed_from_u64(7);
    let idxs = (0..N).map(|_| wa_table.next_rng(&mut rng)).collect::<Vec<usize>>();
    let expected = [N as f32 * 0.2, N as f32 * 0.1, N as f32 * 0.7];
    for (k, e) in expected.iter().enumerate() {
        let c = count(&idxs, k);
        assert!(e * 0.95 < c && c < e * 1.05);
    }
    assert_eq!(count(&idxs, 3), 0.0);
}

#[test]
fn float_weights_sample_like_integer_weights() {
    let scaled: Vec<u32> = [0.1f32, 0.2, 0.3, 0.4]
        .iter()
        .map(|w| (w * 10000.0).round() as u32)
        .collect();
    let wa_table = WalkerTableBuilder::from_scaled(&scaled).build();
    let mut rng = StdRng::seed_from_u64(11);
    let idxs = (0..N).map(|_| wa_table.next_rng(&mut rng)).collect::<Vec<usize>>();
    for k in 0..4 {
        let e = N as f32 * (k + 1) as f32 / 10.0;
        let c = count(&idxs, k);
        assert!(e * 0.95 < c && c < e * 1.05);
    }
}

#[test]
fn seeded_draws_repeat() {
    let wa_table = WalkerTableBuilder::new(&[3u32, 1, 4, 1, 5]).build();
    let mut a = StdRng::seed_from_u64(99);
    let mut b = StdRng::seed_from_u64(99);
    let xs = (0..1000).map(|_| wa_table.next_rng(&mut a)).collect::<Vec<usize>>();
    let ys = (0..1000).map(|_| wa_table.next_rng(&mut b)).collect::<Vec<usize>>();
    assert_eq!(xs, ys);
    // The draws are not all the same index.
    assert!(xs.iter().any(|k| *k != xs[0]));
}

#[test]
fn pick_keeps_or_jumps() {
    let table = WalkerTable::new(vec![1, 1], vec![3, 0], 4);
    assert_eq!(table.pick(0, 0), 1);
    assert_eq!(table.pick(0, 2), 1);
    assert_eq!(table.pick(0, 3), 0);
    assert_eq!(table.pick(1, 0), 1);
}

#[test]
fn error_description() {
    assert_eq!(WeightedRandError::SumWeights.description(), "Sum of weights is 0.");
}
