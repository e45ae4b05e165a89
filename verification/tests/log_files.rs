//! Naming of log files.

use kvs::log_files::{log_id_from_file_name, log_ids_from_file_names};

#[test]
fn numbered_log_names() {
    assert_eq!(log_id_from_file_name("0.log"), Some(0));
    assert_eq!(log_id_from_file_name("42.log"), Some(42));
    assert_eq!(log_id_from_file_name("007.log"), Some(7));
    assert_eq!(log_id_from_file_name("+5.log"), Some(5));
    assert_eq!(log_id_from_file_name("18446744073709551615.log"), Some(u64::MAX));
}

#[test]
fn names_that_are_not_logs() {
    assert_eq!(log_id_from_file_name("notanumber.log"), None);
    assert_eq!(log_id_from_file_name("readme.txt"), None);
    assert_eq!(log_id_from_file_name("5.LOG"), None);
    assert_eq!(log_id_from_file_name("5.logs"), None);
    assert_eq!(log_id_from_file_name(".log"), None);
    assert_eq!(log_id_from_file_name("log"), None);
    assert_eq!(log_id_from_file_name("+.log"), None);
    assert_eq!(log_id_from_file_name("-1.log"), None);
    assert_eq!(log_id_from_file_name("1.2.log"), None);
    assert_eq!(log_id_from_file_name("18446744073709551616.log"), None);
    assert_eq!(log_id_from_file_name("\u{661F}.log"), None);
}

#[test]
fn log_ids_sorted() {
    let names: Vec<String> =
        ["10.log", "data.json", "2.log", "1.log", "02.log", "x.log"].iter().map(|s| s.to_string()).collect();
    assert_eq!(log_ids_from_file_names(&names), vec![1, 2, 10]);
    assert_eq!(log_ids_from_file_names(&Vec::new()), Vec::<u64>::new());
}
