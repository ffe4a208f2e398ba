fn lifetime_check(_: &i64) -> i64 {
    let return_value: i64 = 50;

    return return_value;
}

#[test]
fn test_lifetime_check() {
    assert_eq!(lifetime_check(&10), 50)
}

#[test]
fn test_vectors() {
    let string_vec = vec!["1", "2", "3"];
    let parsed: Vec<u8> = string_vec
        .iter()
        .filter(|s| !s.is_empty())
        .map(|s| s.parse().unwrap())
        .collect();
    assert_eq!(parsed, vec![1, 2, 3])
}

fn make_str() -> String {
    let a = 2;
    format!("a={}", a)
}

#[test]
fn strategy_counter_test_str() {
    println!("{}", make_str())
}

#[test]
fn mastermind_solver_test_str() {
    println!("{}", make_str())
}
