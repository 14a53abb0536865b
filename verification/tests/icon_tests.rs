use sysmon::icons::proc_icon_candidates;

#[test]
fn proc_icon_candidates_resolves_aliases_and_falls_back() {
    let c = proc_icon_candidates("Chrome");
    assert!(c.contains(&"google-chrome".to_string()));
    let c2 = proc_icon_candidates("zzz-totally-not-real");
    assert!(c2.contains(&"zzz-totally-not-real".to_string()));
    assert_eq!(c2.last().unwrap(), "application-x-executable");
    let c3 = proc_icon_candidates("python3");
    assert!(c3.contains(&"python".to_string()));
}

#[test]
fn icon_candidates_exact_lists() {
    assert_eq!(proc_icon_candidates("gnome-terminal-server"), vec!["utilities-terminal", "application-x-executable"]);
    assert_eq!(proc_icon_candidates("Python3"), vec!["python3", "python", "application-x-executable"]);
    assert_eq!(proc_icon_candidates("bash"), vec!["bash", "application-x-executable"]);
    assert_eq!(proc_icon_candidates("chromium"), vec!["chromium", "application-x-executable"]);
}
