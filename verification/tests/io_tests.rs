use kvs::io::{get_sst_from_dir_with_prefix, own_dir_or_not, parse_segment_suffix, str_has_prefix};

#[test]
fn prefix_check() {
    assert!(str_has_prefix(&"log_12".to_owned(), &"log".to_owned()));
    assert!(!str_has_prefix(&"lo".to_owned(), &"log".to_owned()));
    assert!(str_has_prefix(&"anything".to_owned(), &"".to_owned()));
}

#[test]
fn own_dir_refuses_the_other_engine() {
    let names = vec!["log_1".to_owned(), "sled-config".to_owned()];
    assert!(!own_dir_or_not(&names, "kvs"));
    let names = vec!["kvs".to_owned(), "log_1".to_owned()];
    assert!(!own_dir_or_not(&names, "sled"));
}

#[test]
fn own_dir_accepts_its_own_engine() {
    let names = vec!["kvs".to_owned(), "log_1".to_owned(), "log_2".to_owned()];
    assert!(own_dir_or_not(&names, "kvs"));
    let names: Vec<String> = Vec::new();
    assert!(own_dir_or_not(&names, "kvs"));
    assert!(own_dir_or_not(&names, "sled"));
}

#[test]
fn suffix_parse() {
    let prefix = b"log".to_vec();
    assert_eq!(parse_segment_suffix(&"log_12".to_owned(), &prefix), Some(12));
    assert_eq!(parse_segment_suffix(&"log_0".to_owned(), &prefix), Some(0));
    assert_eq!(parse_segment_suffix(&"log_x".to_owned(), &prefix), None);
    assert_eq!(parse_segment_suffix(&"log_".to_owned(), &prefix), None);
    assert_eq!(parse_segment_suffix(&"nope_3".to_owned(), &prefix), None);
}

#[test]
fn listing_sorts_numerically_not_lexically() {
    let files = vec![
        "log_10".to_owned(),
        "notes.txt".to_owned(),
        "log_9".to_owned(),
        "log_1".to_owned(),
        "log_100".to_owned(),
    ];
    let sorted = get_sst_from_dir_with_prefix(files, "log".to_owned());
    assert_eq!(
        sorted,
        vec![
            "log_1".to_owned(),
            "log_9".to_owned(),
            "log_10".to_owned(),
            "log_100".to_owned()
        ]
    );
}
