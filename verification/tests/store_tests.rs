use rand::rngs::StdRng;
use rand::Rng;
use rand::SeedableRng;

use acesort::ace_sort::ace_cmp;
use acesort::store::unique_lines;
use acesort::store::LineStore;
use acesort::store::Reservoir;

fn strings(v: &[&str]) -> Vec<String> {
    v.iter().map(|s| String::from(*s)).collect()
}

#[test]
fn vec_store_keeps_every_line_in_order() {
    let mut store: Vec<String> = Vec::new();
    store.add_line(String::from("b"));
    store.add_line(String::from("a"));
    store.add_line(String::from("b"));
    assert_eq!(store, strings(&["b", "a", "b"]));
}

#[test]
fn reservoir_below_capacity_keeps_everything() {
    let mut resr = Reservoir::new(5);
    resr.add_line(String::from("one"));
    resr.add_line(String::from("two"));
    resr.add_line(String::from("three"));
    assert_eq!(resr.get_all_lines(), strings(&["one", "two", "three"]));
}

#[test]
fn reservoir_at_capacity_keeps_exactly_k_lines() {
    let k = 3;
    let n = 100;
    let mut resr = Reservoir::new(k);
    assert_eq!(resr.sample_size(), k);
    for i in 0..n {
        resr.add_line(format!("line{i}"));
        assert_eq!(resr.seen_count(), i + 1);
    }
    let lines = resr.get_all_lines();
    assert_eq!(lines.len(), k);
    // With a uniform draw the first three lines almost surely do not all
    // survive 97 further arrivals untouched.
    assert_ne!(lines, strings(&["line0", "line1", "line2"]));
    // Every retained line came from the input.
    for line in &lines {
        assert!(line.starts_with("line"));
        let idx: usize = line[4..].parse().unwrap();
        assert!(idx < n);
    }
}

#[test]
fn reservoir_with_seeded_draws_keeps_exactly_k_lines() {
    let mut rng = StdRng::seed_from_u64(7);
    let k = 4;
    let n = 50;
    let mut resr = Reservoir::new(k);
    for i in 0..n {
        let r = rng.random_range(0..resr.seen_count() + 1);
        resr.add_line_with(format!("item{i}"), r);
    }
    let lines = resr.get_all_lines();
    assert_eq!(lines.len(), k);
}

#[test]
fn reservoir_is_deterministic_for_equal_seeds() {
    let run = |seed: u64| -> Vec<String> {
        let mut rng = StdRng::seed_from_u64(seed);
        let mut resr = Reservoir::new(3);
        for i in 0..200 {
            let r = rng.random_range(0..resr.seen_count() + 1);
            resr.add_line_with(format!("row{i}"), r);
        }
        resr.get_all_lines()
    };
    assert_eq!(run(12345), run(12345));
    assert_eq!(run(777), run(777));
}

#[test]
fn reservoir_retention_frequency_approaches_k_over_n() {
    let k: usize = 10;
    let n: usize = 100;
    let trials: usize = 2000;
    let mut kept = vec![0usize; n];
    let mut rng = StdRng::seed_from_u64(2024);
    for _ in 0..trials {
        let mut resr = Reservoir::new(k);
        for i in 0..n {
            let r = rng.random_range(0..resr.seen_count() + 1);
            resr.add_line_with(format!("{i}"), r);
        }
        for line in resr.get_all_lines() {
            let idx: usize = line.parse().unwrap();
            kept[idx] += 1;
        }
    }
    let expected = k as f64 / n as f64;
    for (idx, &count) in kept.iter().enumerate() {
        let freq = count as f64 / trials as f64;
        assert!(
            (freq - expected).abs() < 0.05,
            "retention of input {idx} was {freq}, expected about {expected}"
        );
    }
}

#[test]
fn reservoir_capacity_zero_keeps_nothing() {
    let mut resr = Reservoir::new(0);
    resr.add_line(String::from("a"));
    resr.add_line(String::from("b"));
    assert_eq!(resr.get_all_lines(), strings(&[]));
}

#[test]
fn unique_lines_drops_adjacent_duplicates() {
    let mut lines = strings(&["b", "a", "b"]);
    lines.sort_by(|a, b| ace_cmp(a, b));
    assert_eq!(lines, strings(&["a", "b", "b"]));
    assert_eq!(unique_lines(&lines), strings(&["a", "b"]));
}

#[test]
fn unique_lines_keeps_non_adjacent_duplicates() {
    let lines = strings(&["a", "a", "b", "a", "a", "c", "c"]);
    assert_eq!(unique_lines(&lines), strings(&["a", "b", "a", "c"]));
}

#[test]
fn unique_lines_on_empty_input() {
    let lines: Vec<String> = Vec::new();
    assert_eq!(unique_lines(&lines), strings(&[]));
}
