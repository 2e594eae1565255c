use rumpy::nd::NdArray;
use rumpy::random::{
    choice, choice_with, global, permutation, permutation_with, randint, randint_with, random_bytes, seed,
    shuffle, shuffle_rows_with, shuffle_with, run_calls, SamplerCall, SamplerOutput,
};

#[test]
fn fisher_yates_on_given_draws() {
    assert_eq!(shuffle_with(vec![1, 2, 3, 4], &[0, 0, 0]), vec![2, 3, 4, 1]);
    assert_eq!(shuffle_with(vec![1, 2, 3, 4], &[3, 2, 1]), vec![1, 2, 3, 4]);
    assert_eq!(shuffle_with(Vec::<u8>::new(), &[]), Vec::<u8>::new());
    assert_eq!(permutation_with(3, &[1, 1]).data, vec![0, 2, 1]);
    assert_eq!(permutation_with(-2, &[]).shape, vec![0]);
}

#[test]
fn permutation_is_a_permutation() {
    let mut rng = global(0xDEAD_BEEF_CAFE_BABE);
    let p = permutation(&mut rng, 10);
    assert_eq!(p.shape, vec![10]);
    let mut sorted = p.data.clone();
    sorted.sort();
    assert_eq!(sorted, (0..10).collect::<Vec<i64>>());
}

#[test]
fn seeding_reproduces_the_stream() {
    let mut a = global(1);
    let mut b = global(7);
    seed(&mut b, 1);
    assert_eq!(permutation(&mut a, 20).data, permutation(&mut b, 20).data);
    assert_eq!(random_bytes(&mut a, 16), random_bytes(&mut b, 16));
    assert_eq!(random_bytes(&mut a, 5).len(), 5);
}

#[test]
fn splitting_draws_among_calls_keeps_the_stream() {
    let mut a = global(42);
    let mut b = global(42);
    let mut first = randint(&mut a, 0, 1000, &[2]).data;
    first.extend(randint(&mut a, 0, 1000, &[3]).data);
    assert_eq!(first, randint(&mut b, 0, 1000, &[5]).data);
    // and both generators are left in the same state
    assert_eq!(random_bytes(&mut a, 8), random_bytes(&mut b, 8));
    let mut c = global(42);
    let mut d = global(42);
    let mut bytes = random_bytes(&mut c, 3);
    bytes.extend(random_bytes(&mut c, 4));
    assert_eq!(bytes, random_bytes(&mut d, 7));
}

#[test]
fn shuffling_rows() {
    let mut m = NdArray { shape: vec![3, 2], data: vec![0, 1, 10, 11, 20, 21] };
    shuffle_rows_with(&mut m, &[0, 0]);
    // indices [0, 1, 2] -> swap(2, 0) -> [2, 1, 0] -> swap(1, 0) -> [1, 2, 0]
    assert_eq!(m.data, vec![10, 11, 20, 21, 0, 1]);
    let mut rng = global(3);
    let mut v = NdArray { shape: vec![6], data: vec![5, 4, 3, 2, 1, 0] };
    shuffle(&mut rng, &mut v);
    let mut sorted = v.data.clone();
    sorted.sort();
    assert_eq!(sorted, vec![0, 1, 2, 3, 4, 5]);
    assert_eq!(v.shape, vec![6]);
}

#[test]
fn choices() {
    assert_eq!(choice_with(&[10, 20, 30], 2, true, &[4, 5]).data, vec![20, 30]);
    assert_eq!(choice_with(&[10, 20, 30], 2, false, &[0, 0]).data, vec![20, 30]);
    assert_eq!(choice_with(&[10, 20, 30], 3, false, &[1, 1]).data, vec![10, 30, 20]);
    assert_eq!(choice_with(&[10, 20, 30], 4, false, &[1, 1, 1, 1]).data, vec![20, 20, 20, 20]);
    let mut rng = global(11);
    let c = choice(&mut rng, &[1, 2, 3, 4], 3, false);
    assert_eq!(c.shape, vec![3]);
    let mut d = c.data.clone();
    d.sort();
    d.dedup();
    assert_eq!(d.len(), 3);
    assert!(c.data.iter().all(|x| [1, 2, 3, 4].contains(x)));
}

#[test]
fn bounded_integers() {
    let r = randint_with(5, 8, &[2], &[0, 4]);
    assert_eq!(r.shape, vec![2]);
    assert_eq!(r.data, vec![5, 6]);
    assert_eq!(randint_with(5, 8, &[], &[10]).shape, vec![1]);
    let e = randint_with(5, 5, &[3], &[]);
    assert_eq!(e.shape, vec![0]);
    assert!(e.data.is_empty());
    let mut rng = global(5);
    let x = randint(&mut rng, -3, 4, &[4, 5]);
    assert_eq!(x.shape, vec![4, 5]);
    assert_eq!(x.data.len(), 20);
    assert!(x.data.iter().all(|&v| (-3..4).contains(&v)));
    let z = randint_with(0, 10, &[0, 3], &[]);
    assert_eq!(z.shape, vec![0, 3]);
    assert!(z.data.is_empty());
    // a zero-extent shape takes no draws: the stream is left as it was
    let mut p = global(9);
    let mut q = global(9);
    assert!(randint(&mut p, 0, 10, &[2, 0]).data.is_empty());
    assert_eq!(random_bytes(&mut p, 4), random_bytes(&mut q, 4));
}

#[test]
fn seeding_fixes_the_generator() {
    let mut g = global(1);
    let _ = random_bytes(&mut g, 5);
    seed(&mut g, 7);
    assert_eq!(g, global(7));
    let mut h = global(7);
    assert_eq!(random_bytes(&mut g, 16), random_bytes(&mut h, 16));
    assert_ne!(global(7), global(8));
}

#[test]
fn shuffling_empty_rows_changes_nothing() {
    let mut a = NdArray { shape: vec![3, 0], data: Vec::<i64>::new() };
    shuffle_rows_with(&mut a, &[0, 0]);
    assert_eq!(a.shape, vec![3, 0]);
    let mut rng = global(3);
    let mut b = NdArray { shape: vec![4, 0], data: Vec::<i64>::new() };
    shuffle(&mut rng, &mut b);
    assert_eq!(b.shape, vec![4, 0]);
}

#[test]
fn choice_without_replacement_takes_distinct_positions() {
    let mut rng = global(11);
    let a = [10, 20, 30, 40, 50];
    let r = choice(&mut rng, &a, 3, false).data;
    assert_eq!(r.len(), 3);
    assert!(r[0] != r[1] && r[0] != r[2] && r[1] != r[2]);
    assert!(r.iter().all(|v| a.contains(v)));
}

#[test]
fn seeded_call_sequences_repeat() {
    let calls = vec![
        SamplerCall::RandomBytes(4),
        SamplerCall::Permutation(6),
        SamplerCall::Choice(vec![1, 2, 3, 4], 2, false),
        SamplerCall::Randint(-5, 5, vec![2, 2]),
    ];
    let mut a = global(1);
    let mut b = global(99);
    seed(&mut b, 1);
    let first = run_calls(&mut a, &calls);
    let second = run_calls(&mut b, &calls);
    assert_eq!(first, second);
    assert_eq!(first.len(), 4);
    match &first[0] {
        SamplerOutput::Bytes(v) => assert_eq!(v.len(), 4),
        SamplerOutput::Ints(_) => panic!("bytes expected"),
    }
    // the same calls split in two runs give the same outputs
    let mut c = global(1);
    let mut split = run_calls(&mut c, &calls[..2]);
    split.extend(run_calls(&mut c, &calls[2..]));
    assert_eq!(split, first);
}
