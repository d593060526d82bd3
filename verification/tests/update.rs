use imageguide::update::{update_line, Checked, ENDPOINT};

#[test]
fn release_endpoint_is_https() {
    assert!(ENDPOINT.starts_with("https://"));
}

#[test]
fn updates_are_reported_in_one_line() {
    assert_eq!(update_line(&Checked::UpToDate), None);
    assert_eq!(
        update_line(&Checked::Installed).as_deref(),
        Some("imageguide: installed update; restart to use it")
    );
    assert_eq!(
        update_line(&Checked::NotInstalled("no room".to_string())).as_deref(),
        Some("imageguide: could not install update: no room")
    );
    assert_eq!(
        update_line(&Checked::NotChecked("offline".to_string())).as_deref(),
        Some("imageguide: could not check for updates: offline")
    );
}
