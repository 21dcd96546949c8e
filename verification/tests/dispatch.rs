use server_bench::cpus::{num_cpus, parse_cpu_count, worker_count};
use server_bench::least_loaded::{stable_sort_by_load, LeastConnections};
use server_bench::round_robin::RoundRobin;

#[test]
fn parse_accepts_plain_digits() {
    assert_eq!(parse_cpu_count("8"), Some(8));
    assert_eq!(parse_cpu_count("0"), Some(0));
    assert_eq!(parse_cpu_count("0012"), Some(12));
    assert_eq!(parse_cpu_count("+4"), Some(4));
}

#[test]
fn parse_rejects_what_usize_from_str_rejects() {
    assert_eq!(parse_cpu_count(""), None);
    assert_eq!(parse_cpu_count("+"), None);
    assert_eq!(parse_cpu_count("-1"), None);
    assert_eq!(parse_cpu_count(" 4"), None);
    assert_eq!(parse_cpu_count("4 "), None);
    assert_eq!(parse_cpu_count("four"), None);
    assert_eq!(parse_cpu_count("++4"), None);
    assert_eq!(parse_cpu_count("4٣"), None);
}

#[test]
fn parse_matches_std_at_the_usize_limit() {
    let max = usize::MAX.to_string();
    assert_eq!(parse_cpu_count(&max), Some(usize::MAX));
    let over = format!("{}0", usize::MAX);
    assert_eq!(parse_cpu_count(&over), None);
    let just_over = (usize::MAX as u128 + 1).to_string();
    assert_eq!(parse_cpu_count(&just_over), None);
    for text in ["17", "+0", "99999999999999999999999", "", "1a", "-0"] {
        assert_eq!(parse_cpu_count(text), text.parse::<usize>().ok());
    }
}

#[test]
fn variable_overrides_available_parallelism() {
    assert_eq!(num_cpus(Some("3"), Some(16)), 3);
    assert_eq!(num_cpus(Some("3"), None), 3);
}

#[test]
fn unparsable_or_missing_variable_falls_back() {
    assert_eq!(num_cpus(Some("lots"), Some(16)), 16);
    assert_eq!(num_cpus(None, Some(16)), 16);
    assert_eq!(num_cpus(Some(""), Some(2)), 2);
}

#[test]
fn one_worker_fewer_than_cpus() {
    assert_eq!(worker_count(8), 7);
    assert_eq!(worker_count(1), 0);
}

#[test]
fn round_robin_cycles_through_workers() {
    let mut rr = RoundRobin::new(3);
    assert_eq!(rr.workers(), 3);
    let picks: Vec<usize> = (0..7).map(|_| rr.select()).collect();
    assert_eq!(picks, vec![0, 1, 2, 0, 1, 2, 0]);
}

#[test]
fn round_robin_with_one_worker() {
    let mut rr = RoundRobin::new(1);
    assert_eq!(rr.select(), 0);
    assert_eq!(rr.select(), 0);
}

#[test]
fn round_robin_shares_differ_by_at_most_one() {
    let n = 4;
    let mut rr = RoundRobin::new(n);
    rr.select();
    let mut counts = vec![0usize; n];
    for _ in 0..10 {
        counts[rr.select()] += 1;
    }
    assert_eq!(counts.iter().sum::<usize>(), 10);
    assert!(counts.iter().all(|c| *c == 2 || *c == 3));
    assert_eq!(counts, vec![2, 3, 3, 2]);
}

#[test]
fn round_robin_every_window_is_fair() {
    let n = 5;
    let mut rr = RoundRobin::new(n);
    for _ in 0..3 {
        rr.select();
    }
    let mut seen = vec![0; n];
    for _ in 0..n {
        seen[rr.select()] += 1;
    }
    assert_eq!(seen, vec![1; n]);
}

#[test]
fn least_connections_starts_in_worker_order() {
    let lc = LeastConnections::new(4);
    assert_eq!(lc.current_order(), &vec![0, 1, 2, 3]);
}

#[test]
fn least_connections_picks_the_idlest_worker() {
    let mut lc = LeastConnections::new(4);
    assert_eq!(lc.select(&vec![3, 1, 2, 0]), 3);
    assert_eq!(lc.current_order(), &vec![3, 1, 2, 0]);
    assert_eq!(lc.select(&vec![5, 0, 7, 2]), 1);
    assert_eq!(lc.current_order(), &vec![1, 3, 0, 2]);
}

#[test]
fn least_connections_breaks_ties_by_previous_order() {
    let mut lc = LeastConnections::new(4);
    assert_eq!(lc.select(&vec![2, 2, 1, 2]), 2);
    assert_eq!(lc.current_order(), &vec![2, 0, 1, 3]);
    assert_eq!(lc.select(&vec![4, 3, 3, 4]), 2);
    assert_eq!(lc.current_order(), &vec![2, 1, 0, 3]);
}

#[test]
fn equal_loads_leave_the_order_alone() {
    let mut lc = LeastConnections::new(3);
    lc.select(&vec![1, 0, 2]);
    let before = lc.current_order().clone();
    assert_eq!(lc.select(&vec![7, 7, 7]), before[0]);
    assert_eq!(lc.current_order(), &before);
}

#[test]
fn stable_sort_matches_std_sort_by_key() {
    let order = vec![4, 0, 3, 1, 5, 2];
    let loads = vec![2, 0, 1, 2, 0, 1];
    let mut expected = order.clone();
    expected.sort_by_key(|w| loads[*w]);
    assert_eq!(stable_sort_by_load(&order, &loads), expected);
}
