use kvs::load_path;
use kvs::log_file_name;
use kvs::log_path;
use kvs::parse_gen;
use kvs::sort_gen_list;

#[test]
fn file_names_are_decimal_with_log_extension() {
    assert_eq!(log_file_name(1), "1.log");
    assert_eq!(log_file_name(0), "0.log");
    assert_eq!(log_file_name(42), "42.log");
    assert_eq!(log_file_name(18446744073709551615), "18446744073709551615.log");
}

#[test]
fn paths_join_directory_and_file_name() {
    assert_eq!(log_path("/tmp/db", 7), "/tmp/db/7.log");
    assert_eq!(load_path("/tmp/db", 7), "/tmp/db/7.log");
    assert_eq!(log_path("data", 10), "data/10.log");
}

#[test]
fn parse_gen_reads_back_written_names() {
    assert_eq!(parse_gen("1.log"), Some(1));
    assert_eq!(parse_gen("42.log"), Some(42));
    assert_eq!(parse_gen(&log_file_name(12345)), Some(12345));
    assert_eq!(parse_gen("18446744073709551615.log"), Some(18446744073709551615));
}

#[test]
fn parse_gen_accepts_leading_zeros() {
    assert_eq!(parse_gen("007.log"), Some(7));
}

#[test]
fn parse_gen_rejects_other_names() {
    assert_eq!(parse_gen(""), None);
    assert_eq!(parse_gen(".log"), None);
    assert_eq!(parse_gen("a.log"), None);
    assert_eq!(parse_gen("1a.log"), None);
    assert_eq!(parse_gen("1.txt"), None);
    assert_eq!(parse_gen("1log"), None);
    assert_eq!(parse_gen("1.log.bak"), None);
    assert_eq!(parse_gen("-1.log"), None);
    assert_eq!(parse_gen("\u{4e00}.log"), None);
}

#[test]
fn parse_gen_rejects_values_past_u64() {
    assert_eq!(parse_gen("18446744073709551616.log"), None);
    assert_eq!(parse_gen("99999999999999999999999.log"), None);
}

#[test]
fn sort_gen_list_orders_ascending() {
    assert_eq!(sort_gen_list(vec![3, 1, 2]), vec![1, 2, 3]);
    assert_eq!(sort_gen_list(vec![]), Vec::<u64>::new());
    assert_eq!(sort_gen_list(vec![5]), vec![5]);
    assert_eq!(sort_gen_list(vec![9, 9, 1]), vec![1, 9, 9]);
}
