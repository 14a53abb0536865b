use sysmon::table::{app_matches, decimal_chars, names_gone, pids_gone, proc_matches};

#[test]
fn search_matches_names_in_any_case() {
    assert!(app_matches("Firefox", "fire"));
    assert!(app_matches("Firefox", "FIRE"));
    assert!(!app_matches("Chrome", "fire"));
    assert!(app_matches("Chrome", ""));
}

#[test]
fn search_matches_pids_of_processes() {
    assert!(proc_matches("Chrome", 200, "200"));
    assert!(proc_matches("Chrome", 1200, "20"));
    assert!(!proc_matches("Terminal", 300, "200"));
    assert!(proc_matches("Terminal", 300, "term"));
    assert!(proc_matches("Terminal", 300, ""));
}

#[test]
fn pids_print_in_decimal() {
    assert_eq!(decimal_chars(0), vec!['0']);
    assert_eq!(decimal_chars(4_294_967_295).iter().collect::<String>(), "4294967295");
}

#[test]
fn rows_that_leave_are_the_unseen_ones() {
    assert_eq!(pids_gone(&[3, 1, 7, 9], &[7, 3, 11]), vec![1, 9]);
    assert!(pids_gone(&[], &[1]).is_empty());
    let known = vec!["a".to_string(), "b".to_string(), "c".to_string()];
    let seen = vec!["c".to_string(), "z".to_string()];
    assert_eq!(names_gone(&known, &seen), vec!["a".to_string(), "b".to_string()]);
}
