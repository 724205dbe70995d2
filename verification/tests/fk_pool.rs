use rand::rngs::StdRng;
use rand::{Rng, SeedableRng};
use std::collections::{HashMap, HashSet};
use synth::fk_pool::{FkPool, Pick, Weight};
use synth::value::Value;

fn pool(n: usize) -> FkPool {
    FkPool::new((0..n).map(|i| Value::Number(i.to_string())).collect())
}

fn number(v: &Value) -> usize {
    match v {
        Value::Number(s) => s.parse().unwrap(),
        other => panic!("expected a number, got {other:?}"),
    }
}

fn name(v: &Value) -> String {
    match v {
        Value::Text(s) => s.clone(),
        other => panic!("expected a text, got {other:?}"),
    }
}

#[test]
fn empty_pool_returns_none() {
    let p = pool(0);
    let mut rng = StdRng::seed_from_u64(42);
    assert!(p.sample_one(Pick::Uniform, &mut rng).is_none());
    assert!(p.sample_one(Pick::At(0), &mut rng).is_none());
}

#[test]
fn uniform_covers_most_of_pool() {
    let p = pool(50);
    let mut rng = StdRng::seed_from_u64(42);
    let mut seen = HashSet::new();
    for _ in 0..2000 {
        if let Some(v) = p.sample_one(Pick::Uniform, &mut rng) {
            seen.insert(number(&v));
        }
    }
    assert!(seen.len() >= 45, "uniform covered only {} of 50", seen.len());
}

#[test]
fn sample_one_returns_pool_values() {
    let p = pool(3);
    let mut rng = StdRng::seed_from_u64(42);
    for _ in 0..20 {
        let v = p.sample_one(Pick::Uniform, &mut rng).unwrap();
        assert!(number(&v) < 3);
    }
    assert_eq!(p.len(), 3);
    assert!(!p.is_empty());
}

#[test]
fn sample_unique_never_repeats_and_exhausts() {
    let mut p = pool(10);
    let mut rng = StdRng::seed_from_u64(42);
    let mut seen = HashSet::new();
    for _ in 0..10 {
        let v = p.sample_unique(&mut rng).unwrap();
        assert!(seen.insert(number(&v)), "unique draw repeated");
    }
    assert_eq!(seen.len(), 10);
    assert!(p.sample_unique(&mut rng).is_none());
}

#[test]
fn sample_unique_on_empty_returns_none() {
    let mut p = pool(0);
    let mut rng = StdRng::seed_from_u64(42);
    assert!(p.sample_unique(&mut rng).is_none());
}

#[test]
fn an_order_decides_which_entry_leaves_next() {
    let mut p = pool(3);
    assert!(!p.prepare(&[0, 0, 1]));
    assert!(!p.prepared());
    assert!(p.prepare(&[2, 0, 1]));
    let mut rng = StdRng::seed_from_u64(42);
    let mut left = Vec::new();
    while let Some(v) = p.sample_unique(&mut rng) {
        left.push(number(&v));
    }
    assert_eq!(left, vec![1, 0, 2]);
}

#[test]
fn fk_pool_should_weight_fk_references_by_parent_frequency() {
    let mut values = Vec::new();
    for (key, times) in [("a", 600), ("b", 300), ("c", 100)] {
        for _ in 0..times {
            values.push(Value::Text(key.to_string()));
        }
    }
    let p = FkPool::from_observed_weights(&values, None);
    let weights: Vec<f64> = p
        .weights()
        .iter()
        .map(|w| match w {
            Weight::Count(n) => *n as f64,
            Weight::Level(_) => panic!("no levels were given"),
        })
        .collect();
    let total: f64 = weights.iter().sum();
    let mut rng = StdRng::seed_from_u64(42);
    let mut counts = HashMap::new();
    for _ in 0..10_000 {
        let target = rng.gen::<f64>() * total;
        let mut acc = 0.0;
        let mut at = weights.len() - 1;
        for (i, w) in weights.iter().enumerate() {
            acc += w;
            if target < acc {
                at = i;
                break;
            }
        }
        let v = p.sample_one(Pick::At(at), &mut rng).unwrap();
        *counts.entry(name(&v)).or_insert(0) += 1;
    }
    let share = |k: &str| *counts.get(k).unwrap_or(&0) as f64 / 10_000.0;
    assert!((share("a") - 0.6).abs() < 0.05, "a share {}", share("a"));
    assert!((share("b") - 0.3).abs() < 0.05, "b share {}", share("b"));
    assert!((share("c") - 0.1).abs() < 0.05, "c share {}", share("c"));
}

#[test]
fn levels_weigh_entries_where_they_are_known() {
    let values = vec![
        Value::Text("b".to_string()),
        Value::Text("a".to_string()),
        Value::Text("b".to_string()),
        Value::Text("x".to_string()),
    ];
    let levels = vec!["a".to_string(), "b".to_string()];
    let p = FkPool::from_observed_weights(&values, Some(&levels));
    assert_eq!(p.len(), 3);
    assert_eq!(p.weights()[0], Weight::Level(1));
    assert_eq!(p.weights()[1], Weight::Level(0));
}

#[test]
fn distinct_entries_are_counted_once() {
    let values = vec![
        Value::Number("1".to_string()),
        Value::Text("1".to_string()),
        Value::Number("1".to_string()),
    ];
    assert_eq!(FkPool::new(values).distinct_len(), 2);
}

#[test]
fn zipf_skews_toward_head() {
    let p = pool(100);
    let shares: Vec<f64> = (1..=100).map(|k| 1.0 / k as f64).collect();
    let harmonic: f64 = shares.iter().sum();
    let mut rng = StdRng::seed_from_u64(42);
    let mut head_hits = 0usize;
    let mut tail_hits = 0usize;
    for _ in 0..5000 {
        let u: f64 = rng.gen_range(0.0..harmonic);
        let mut acc = 0.0;
        let mut at = 99;
        for (i, share) in shares.iter().enumerate() {
            acc += share;
            if u < acc {
                at = i;
                break;
            }
        }
        let v = number(&p.sample_one(Pick::At(at), &mut rng).unwrap());
        if v < 10 {
            head_hits += 1;
        } else if v >= 90 {
            tail_hits += 1;
        }
    }
    assert!(head_hits > tail_hits * 10, "head {head_hits}, tail {tail_hits}");
}

fn zipf_order(n: usize, rng: &mut StdRng) -> Vec<usize> {
    let mut keyed: Vec<(f64, usize)> = (0..n)
        .map(|i| (rng.gen::<f64>().clamp(1e-12, 1.0).powf((i + 1) as f64), i))
        .collect();
    keyed.sort_by(|a, b| a.0.total_cmp(&b.0));
    keyed.into_iter().map(|(_, i)| i).collect()
}

#[test]
fn should_sample_unique_zipf_without_replacement() {
    let mut p = pool(1000);
    let mut rng = StdRng::seed_from_u64(42);
    let order = zipf_order(1000, &mut rng);
    assert!(p.prepare(&order));
    let mut seen = HashSet::new();
    for _ in 0..100 {
        let v = number(&p.sample_unique(&mut rng).unwrap());
        assert!(seen.insert(v), "unique+zipf repeated {v}");
    }
    assert_eq!(seen.len(), 100);
    let head = seen.iter().filter(|i| **i < 100).count();
    let tail = seen.iter().filter(|i| **i >= 900).count();
    assert!(head > tail * 2, "head {head}, tail {tail}");

    let mut big = pool(10_000);
    let mut rng = StdRng::seed_from_u64(1);
    let order = zipf_order(10_000, &mut rng);
    let start = std::time::Instant::now();
    assert!(big.prepare(&order));
    for _ in 0..10_000 {
        big.sample_unique(&mut rng).expect("10k unique zipf draws from a 10k pool");
    }
    assert!(start.elapsed().as_secs_f64() < 1.0, "took {:?}", start.elapsed());
}
