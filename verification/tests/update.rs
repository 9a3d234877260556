use chrometester::json::parse_text;
use chrometester::update::{
    check_update, open_url, read_release, LATEST_RELEASE_API, RELEASES_PAGE,
};

#[test]
fn addresses_of_the_releases() {
    assert_eq!(RELEASES_PAGE, "https://github.com/ahua8522/ChromeTester/releases");
    assert_eq!(
        LATEST_RELEASE_API,
        "https://api.github.com/repos/ahua8522/ChromeTester/releases/latest",
    );
}

#[test]
fn a_newer_release_is_an_update() {
    let body = "{\"tag_name\":\"v1.2.10\",\"html_url\":\"https://github.com/x\",\"body\":\"新\"}";
    let info = check_update("1.2.9", 200, "200 OK", body.as_bytes()).ok().unwrap();
    assert_eq!(info.current, "1.2.9");
    assert_eq!(info.latest, "1.2.10");
    assert!(info.has_update);
    assert_eq!(info.url, "https://github.com/x");
    assert_eq!(info.notes, "新");
}

#[test]
fn a_release_is_not_newer_than_itself() {
    for tag in ["1.2.9", "v1.2.9", "vv1.2.9", "1.2.8", "", "v"] {
        let data = parse_text(&format!("{{\"tag_name\":\"{tag}\"}}")).unwrap();
        assert!(!read_release("1.2.9", &data).has_update);
    }
    let data = parse_text("{\"tag_name\":\"1.2.9.0\"}").unwrap();
    assert!(read_release("1.2.9", &data).has_update);
}

#[test]
fn a_release_with_nothing_said_of_it() {
    let info = read_release("1.0.0", &parse_text("[]").unwrap());
    assert_eq!(info.latest, "");
    assert_eq!(info.url, RELEASES_PAGE);
    assert_eq!(info.notes, "");
    assert!(!info.has_update);
}

#[test]
fn notes_are_cut_after_four_hundred_characters() {
    let data = parse_text(&format!("{{\"body\":\"{}\"}}", "字".repeat(401))).unwrap();
    assert_eq!(read_release("1", &data).notes, "字".repeat(400));
    let data = parse_text(&format!("{{\"body\":\"{}\"}}", "a".repeat(400))).unwrap();
    assert_eq!(read_release("1", &data).notes, "a".repeat(400));
}

#[test]
fn nothing_released_is_no_update() {
    let info = check_update("1.0.0", 404, "404 Not Found", b"").ok().unwrap();
    assert_eq!(info.current, "1.0.0");
    assert_eq!(info.latest, "1.0.0");
    assert!(!info.has_update);
    assert_eq!(info.url, RELEASES_PAGE);
    assert_eq!(info.notes, "远端尚无正式发布");
}

#[test]
fn answers_that_are_errors() {
    assert_eq!(
        check_update("1.0.0", 403, "403 Forbidden", b"{}").err(),
        Some("检查失败: HTTP 403 Forbidden".to_string()),
    );
    assert_eq!(
        check_update("1.0.0", 199, "199", b"{}").err(),
        Some("检查失败: HTTP 199".to_string()),
    );
    assert_eq!(
        check_update("1.0.0", 300, "300 Multiple Choices", b"{}").err(),
        Some("检查失败: HTTP 300 Multiple Choices".to_string()),
    );
    assert_eq!(
        check_update("1.0.0", 299, "299", b"<html>").err(),
        Some("error decoding response body".to_string()),
    );
}

#[test]
fn only_github_is_opened() {
    assert_eq!(open_url(RELEASES_PAGE), Ok(()));
    assert_eq!(open_url("https://github.com/"), Ok(()));
    for url in ["", "http://github.com/", "https://github.com.example/", "https://github.com"] {
        assert_eq!(open_url(url), Err("非法链接".to_string()));
    }
}
