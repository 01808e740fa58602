use kvs::gen_list::{dedup_gens, parse_gen_file_name, sort_gens};

#[test]
fn parse_plain_names() {
    assert_eq!(parse_gen_file_name("0.log"), Some(0));
    assert_eq!(parse_gen_file_name("12.log"), Some(12));
    assert_eq!(parse_gen_file_name("18446744073709551615.log"), Some(u64::MAX));
}

#[test]
fn parse_accepts_leading_zeros() {
    assert_eq!(parse_gen_file_name("007.log"), Some(7));
}

#[test]
fn parse_rejects_other_files() {
    assert_eq!(parse_gen_file_name("a.log"), None);
    assert_eq!(parse_gen_file_name("12.txt"), None);
    assert_eq!(parse_gen_file_name(".log"), None);
    assert_eq!(parse_gen_file_name("12"), None);
    assert_eq!(parse_gen_file_name(""), None);
    assert_eq!(parse_gen_file_name("1 2.log"), None);
}

#[test]
fn parse_rejects_overflowing_ids() {
    assert_eq!(parse_gen_file_name("18446744073709551616.log"), None);
    assert_eq!(parse_gen_file_name("99999999999999999999999.log"), None);
}

#[test]
fn sort_orders_ascending() {
    assert_eq!(sort_gens(vec![3, 1, 2]), vec![1, 2, 3]);
    assert_eq!(sort_gens(vec![]), Vec::<u64>::new());
    assert_eq!(sort_gens(vec![5, 5, 0]), vec![0, 5, 5]);
}

#[test]
fn dedup_makes_strictly_ascending() {
    assert_eq!(dedup_gens(vec![1, 1, 2, 7, 7, 7]), vec![1, 2, 7]);
    assert_eq!(dedup_gens(vec![]), Vec::<u64>::new());
}
