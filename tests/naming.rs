use kvs::naming::{log_generation, log_generations, log_path};

#[test]
fn log_path_joins_directory_and_name() {
    assert_eq!(log_path("/tmp/store", 12), "/tmp/store/12.log");
    assert_eq!(log_path("d", 0), "d/0.log");
    assert_eq!(log_path("d", u64::MAX), "d/18446744073709551615.log");
}

#[test]
fn log_generation_accepts_log_names() {
    assert_eq!(log_generation("5.log"), Some(5));
    assert_eq!(log_generation("0042.log"), Some(42));
    assert_eq!(log_generation("18446744073709551615.log"), Some(u64::MAX));
}

#[test]
fn log_generation_ignores_other_names() {
    assert_eq!(log_generation("x.log"), None);
    assert_eq!(log_generation(".log"), None);
    assert_eq!(log_generation("5.txt"), None);
    assert_eq!(log_generation("5.log.bak"), None);
    assert_eq!(log_generation("1a.log"), None);
    assert_eq!(log_generation("18446744073709551616.log"), None);
    assert_eq!(log_generation(""), None);
}

#[test]
fn log_generations_sorted_without_repeats() {
    let names: Vec<String> = vec!["7.log", "notes.txt", "2.log", "07.log", "10.log", "x.log"]
        .into_iter()
        .map(|s| s.to_string())
        .collect();
    assert_eq!(log_generations(&names), vec![2, 7, 10]);
    assert_eq!(log_generations(&Vec::new()), Vec::<u64>::new());
}
