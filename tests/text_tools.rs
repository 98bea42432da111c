use nt::bases::to_base;
use nt::chain::{build_chain_from_start, search_chain, shuffle};
use nt::random::{digits_from_hashes, generate_random_digits};
use nt::scan::{find_prime_occurrences, occurrence_context};
use nt::records::parse_text_records;
use nt::segmented::find_primes;

#[test]
fn occurrences_in_position_order() {
    let digits = "10091009110091";
    let found = find_prime_occurrences(digits, &vec![7, 1009, 1091, 9110]);
    assert_eq!(found, vec![(1009, 0), (1009, 4), (9110, 7), (1009, 9)]);
    let overlapping = find_prime_occurrences("1117111", &vec![1117, 7111, 1171]);
    assert_eq!(overlapping, vec![(1117, 0), (1171, 1), (7111, 3)]);
}

#[test]
fn occurrences_skip_short_primes() {
    assert_eq!(find_prime_occurrences("2357", &vec![2, 3, 5, 7]), vec![]);
    assert_eq!(find_prime_occurrences("", &vec![1009]), vec![]);
}

#[test]
fn context_window() {
    assert_eq!(occurrence_context(0, 4, 10), (0, 7));
    assert_eq!(occurrence_context(5, 4, 10), (2, 10));
}

#[test]
fn random_digits_are_digits() {
    let d = generate_random_digits(500);
    assert_eq!(d.len(), 500);
    assert!(d.chars().all(|c| c.is_ascii_digit()));
    assert_eq!(digits_from_hashes(&vec![12, 7, 1_000_000_009]), "279");
}

#[test]
fn text_records_parse_back() {
    let text = "2\n3\n\n  5 \nfoo\n+7\n-1\n18446744073709551616\n\t11\r\n13";
    assert_eq!(parse_text_records(text), vec![2, 3, 5, 7, 11, 13]);
    assert_eq!(parse_text_records("18446744073709551615"), vec![usize::MAX]);
    assert_eq!(parse_text_records(""), Vec::<usize>::new());
    assert_eq!(parse_text_records("+\n 4 2\n"), Vec::<usize>::new());
}

#[test]
fn shuffle_moves_items() {
    let original: Vec<usize> = (0..50).collect();
    let mut v = original.clone();
    shuffle(&mut v);
    assert_ne!(v, original);
}

#[test]
fn shuffle_keeps_items() {
    let mut v: Vec<usize> = (0..50).collect();
    shuffle(&mut v);
    let mut sorted = v.clone();
    sorted.sort();
    assert_eq!(sorted, (0..50).collect::<Vec<usize>>());
}

#[test]
fn chain_links_by_overlap() {
    let pool = vec!["1307".to_string(), "0741".to_string(), "4111".to_string(), "7411".to_string()];
    let (chain, used) = build_chain_from_start("1307", 2, 100, &pool);
    assert_eq!(used[0], "1307");
    assert!(chain.starts_with("1307"));
    assert_eq!(used, vec!["1307".to_string(), "0741".to_string(), "4111".to_string()]);
    assert_eq!(chain, "13074111");
}

#[test]
fn chain_stops_at_target() {
    let pool = vec!["1111".to_string(), "1113".to_string()];
    let (chain, used) = build_chain_from_start("1111", 3, 4, &pool);
    assert_eq!(chain, "1111");
    assert_eq!(used, vec!["1111".to_string()]);
}

#[test]
fn chain_search_over_primes() {
    let primes = find_primes(10_000, 2);
    let result = search_chain(&primes, 2, 30).unwrap();
    assert!(result.attempts >= 1);
    assert_eq!(result.available, primes.iter().filter(|&&p| p >= 100).count());
    assert!(result.chain.len() <= 30);
    let mut rebuilt = result.primes[0].clone();
    for p in &result.primes[1..] {
        assert_eq!(&p[..2], &rebuilt[rebuilt.len() - 2..]);
        rebuilt.push_str(&p[2..]);
        assert!(primes.contains(&p.parse::<usize>().unwrap()));
    }
    assert!(rebuilt.starts_with(&result.chain));
    assert!(search_chain(&vec![2, 3, 5], 1, 10).is_none());
    assert_eq!(to_base(7919, 10), "7919");
}
