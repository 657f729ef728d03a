use hanji::external::{external_url_command, is_supported_external_url, Platform};

#[test]
fn accepts_only_http_and_https_urls() {
    assert!(is_supported_external_url("https://hanji.local"));
    assert!(is_supported_external_url("http://hanji.local"));
    assert!(!is_supported_external_url("file:///tmp/note.md"));
    assert!(!is_supported_external_url("javascript:alert(1)"));
    assert!(!is_supported_external_url("mailto:hello@example.com"));
    assert!(!is_supported_external_url("hanji.local"));
}

#[test]
fn builds_platform_open_command_for_supported_urls() {
    let command = external_url_command("https://hanji.local", Platform::MacOs).expect("command");
    assert_eq!(command.program, "open");
    assert_eq!(command.args, vec!["https://hanji.local"]);

    let command = external_url_command("https://hanji.local", Platform::Linux).expect("command");
    assert_eq!(command.program, "xdg-open");
    assert_eq!(command.args, vec!["https://hanji.local"]);

    let command = external_url_command("https://hanji.local", Platform::Windows).expect("command");
    assert_eq!(command.program, "cmd");
    assert_eq!(command.args, vec!["/C", "start", "", "https://hanji.local"]);
}

#[test]
fn url_scheme_ignores_letter_case_but_needs_slashes() {
    assert!(is_supported_external_url("HTTPS://hanji.local"));
    assert!(is_supported_external_url("HtTp://x"));
    assert!(!is_supported_external_url("https:hanji.local"));
    assert!(!is_supported_external_url("https:/"));
    assert!(!is_supported_external_url("httpss://hanji.local"));
    assert!(!is_supported_external_url(""));
}

#[test]
fn unsupported_urls_and_platforms_build_no_command() {
    assert_eq!(external_url_command("ftp://hanji.local", Platform::Linux), None);
    assert_eq!(external_url_command("https://hanji.local", Platform::Other), None);
}
