use loadbalancer::pool::Worker;
use loadbalancer::stats::stats;

fn pool_of(counts: &[usize]) -> Vec<Worker> {
    counts.iter().enumerate().map(|(id, &pending)| Worker { id, pending }).collect()
}

// For pending counts [2, 2, 2, 2]: mean 2.0 and population variance 0.0.
#[test]
fn stats_uniform_pool() {
    let ws = pool_of(&[2, 2, 2, 2]);
    let (sum, sumsq) = stats(&ws);
    assert_eq!(sum, 8);
    assert_eq!(sumsq, 16);
    let n = ws.len() as f64;
    let mean = sum as f64 / n;
    let variance = sumsq as f64 / n - mean * mean;
    assert_eq!(mean, 2.0);
    assert_eq!(variance, 0.0);
}

// For pending counts [0, 1, 2, 3]: mean 1.5 and population variance 1.25.
#[test]
fn stats_staircase_pool() {
    let ws = pool_of(&[0, 1, 2, 3]);
    let (sum, sumsq) = stats(&ws);
    assert_eq!(sum, 6);
    assert_eq!(sumsq, 14);
    let n = ws.len() as f64;
    let mean = sum as f64 / n;
    let variance = sumsq as f64 / n - mean * mean;
    assert_eq!(mean, 1.5);
    assert_eq!(variance, 1.25);
}

#[test]
fn stats_empty_pool_sums_to_zero() {
    let ws: Vec<Worker> = Vec::new();
    let (sum, sumsq) = stats(&ws);
    assert_eq!(sum, 0);
    assert_eq!(sumsq, 0);
}

#[test]
fn stats_single_worker() {
    let ws = pool_of(&[5]);
    let (sum, sumsq) = stats(&ws);
    assert_eq!(sum, 5);
    assert_eq!(sumsq, 25);
}
