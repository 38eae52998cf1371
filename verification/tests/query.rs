use mail_cli::query::{recent_range, select_newest_uids, translate_query, uid_set_string};

#[test]
fn translate_query_filters() {
    assert_eq!(
        translate_query("is:unread from:alice"),
        "UNSEEN FROM \"alice\""
    );
    assert_eq!(
        translate_query("subject:invoice IS:Read"),
        "SUBJECT \"invoice\" SEEN"
    );
    assert_eq!(translate_query("to:bob meeting"), "TO \"bob\" TEXT \"meeting\"");
}

#[test]
fn translate_query_empty_is_all() {
    assert_eq!(translate_query(""), "ALL");
    assert_eq!(translate_query("   \t "), "ALL");
}

#[test]
fn translate_query_prefix_is_case_sensitive() {
    assert_eq!(translate_query("From:alice"), "TEXT \"From:alice\"");
}

#[test]
fn translate_query_whitespace_runs() {
    assert_eq!(translate_query("  a \t\n b  "), "TEXT \"a\" TEXT \"b\"");
}

#[test]
fn newest_uids_sorted_and_truncated() {
    let uids: Vec<u32> = (1..=60).collect();
    let r = select_newest_uids(uids);
    assert_eq!(r.len(), 50);
    assert_eq!(r[0], 60);
    assert_eq!(r[49], 11);
    assert_eq!(select_newest_uids(vec![3, 9, 1]), vec![9, 3, 1]);
    assert_eq!(select_newest_uids(vec![]), Vec::<u32>::new());
}

#[test]
fn uid_set_joins_with_commas() {
    assert_eq!(uid_set_string(&vec![42, 7, 100]), "42,7,100");
    assert_eq!(uid_set_string(&vec![0]), "0");
    assert_eq!(uid_set_string(&vec![]), "");
}

#[test]
fn recent_range_values() {
    assert_eq!(recent_range(0, 50), None);
    assert_eq!(recent_range(100, 50), Some("51:100".to_string()));
    assert_eq!(recent_range(10, 50), Some("1:10".to_string()));
    assert_eq!(recent_range(5, 0), Some("5:5".to_string()));
    assert_eq!(recent_range(5, 1), Some("5:5".to_string()));
}

#[test]
fn newest_uids_hold_found_uids_descending() {
    let input = vec![5, 17, 5, 2, 99, 40];
    let r = select_newest_uids(input.clone());
    assert_eq!(r, vec![99, 40, 17, 5, 5, 2]);
    assert!(r.windows(2).all(|w| w[0] >= w[1]));
    assert!(r.iter().all(|u| input.contains(u)));
}

#[test]
fn query_terms_combine() {
    let a = "is:unread  from:alice";
    let b = "subject:invoice";
    assert_eq!(
        translate_query(&format!("{a} {b}")),
        format!("{} {}", translate_query(a), translate_query(b))
    );
}
