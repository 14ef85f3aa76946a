use pizzabot::{ChoiceMap, Uniform};

#[test]
fn lib_it_works() {
    assert_eq!(2 + 2, 4);
}

#[test]
fn total_counts_every_insert() {
    let mut m = ChoiceMap::<usize>::new();
    assert_eq!(m.total(), 0);
    for k in [3usize, 1, 3, 3, 7] {
        m.insert(k);
    }
    assert_eq!(m.total(), 5);
    assert_eq!(m.count(&3), 3);
    assert_eq!(m.count(&1), 1);
    assert_eq!(m.count(&7), 1);
    assert_eq!(m.count(&9), 0);
}

#[test]
fn sample_of_empty_table_is_none() {
    let m = ChoiceMap::<usize>::new();
    assert_eq!(m.sample(), None);
    assert_eq!(m.sample_biased(&Uniform), None);
}

#[test]
fn sample_only_returns_inserted_keys() {
    let mut m = ChoiceMap::<usize>::new();
    m.insert(4);
    m.insert(8);
    m.insert(8);
    for _ in 0..200 {
        let k = *m.sample().unwrap();
        assert!(k == 4 || k == 8);
        assert!(m.count(&k) >= 1);
    }
}

#[test]
fn pick_follows_cumulative_counts_in_insertion_order() {
    let mut m = ChoiceMap::<usize>::new();
    m.insert(10);
    m.insert(20);
    m.insert(20);
    m.insert(20);
    assert_eq!(m.pick(0), Some(&10));
    assert_eq!(m.pick(1), Some(&20));
    assert_eq!(m.pick(3), Some(&20));
    assert_eq!(m.pick(4), None);
}

#[test]
fn uniform_bias_picks_as_plain_pick() {
    let mut m = ChoiceMap::<usize>::new();
    for k in [5usize, 6, 6, 9, 5, 6] {
        m.insert(k);
    }
    assert_eq!(m.weighted_total(&Uniform), m.total());
    for n in 0..8 {
        assert_eq!(m.pick_biased(&Uniform, n), m.pick(n));
    }
}

#[test]
fn sampling_ratio_follows_counts() {
    let mut m = ChoiceMap::<usize>::new();
    m.insert(1);
    m.insert(2);
    m.insert(2);
    m.insert(2);
    let mut ones = 0usize;
    let mut twos = 0usize;
    for _ in 0..20000 {
        match *m.sample().unwrap() {
            1 => ones += 1,
            _ => twos += 1,
        }
    }
    let ratio = twos as f64 / ones as f64;
    assert!(ratio > 2.5 && ratio < 3.6, "ratio {}", ratio);
}

#[test]
fn biased_sampling_only_returns_inserted_keys() {
    let mut m = ChoiceMap::<String>::new();
    m.insert("a".to_string());
    m.insert("b".to_string());
    for _ in 0..100 {
        let k = m.sample_biased(&Uniform).unwrap();
        assert!(k == "a" || k == "b");
    }
}
