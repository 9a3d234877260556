use chrometester::catalog::{
    fetch_version_strings, get_available_versions, load_version_strings,
    refresh_available_versions, version_list_url, versions_in_listing,
};
use chrometester::json::parse_text;
use chrometester::versions::VersionInfo;

const GOOGLE: &str = "{\"versions\":[\
    {\"version\":\"113.0.5672.0\",\"downloads\":{\"chrome\":[{\"platform\":\"linux64\"},{\"platform\":\"win64\"}]}},\
    {\"version\":\"114.0.1\",\"downloads\":{\"chrome\":[{\"platform\":\"linux64\"}]}},\
    {\"version\":\"115.0.2\",\"downloads\":{\"chromedriver\":[{\"platform\":\"win64\"}]}},\
    {\"downloads\":{\"chrome\":[{\"platform\":\"win64\"}]}},\
    {\"version\":\"116.0.3\",\"downloads\":{\"chrome\":[{\"platform\":\"win64\"}]}}]}";

const MIRROR: &str = "[\
    {\"name\":\"113.0.5672.0/\",\"type\":\"dir\"},\
    {\"name\":\"known.json\",\"type\":\"file\"},\
    {\"name\":\"../\",\"type\":\"dir\"},\
    {\"name\":\"116.0.3/\",\"type\":\"dir\"},\
    {\"name\":7,\"type\":\"dir\"},\
    {\"type\":\"dir\"}]";

#[test]
fn where_versions_are_listed() {
    assert_eq!(
        version_list_url("npmmirror"),
        "https://registry.npmmirror.com/-/binary/chrome-for-testing/",
    );
    assert_eq!(
        version_list_url("google"),
        "https://googlechromelabs.github.io/chrome-for-testing/known-good-versions-with-downloads.json",
    );
}

#[test]
fn versions_of_google_are_those_with_a_browser_for_the_platform() {
    let found = fetch_version_strings("google", "win64", GOOGLE.as_bytes());
    assert_eq!(found, Ok(vec!["113.0.5672.0".to_string(), "116.0.3".to_string()]));
    let data = parse_text(GOOGLE).unwrap();
    assert_eq!(versions_in_listing("google", "linux64", &data), vec!["113.0.5672.0", "114.0.1"]);
}

#[test]
fn versions_of_the_mirror_are_its_directories() {
    let found = fetch_version_strings("npmmirror", "win64", MIRROR.as_bytes());
    assert_eq!(found, Ok(vec!["113.0.5672.0".to_string(), "116.0.3".to_string()]));
}

#[test]
fn listings_of_another_shape_have_no_versions() {
    for body in ["{}", "[]", "1", "{\"versions\":{}}"] {
        assert_eq!(fetch_version_strings("google", "win64", body.as_bytes()), Ok(vec![]));
        assert_eq!(fetch_version_strings("npmmirror", "win64", body.as_bytes()), Ok(vec![]));
    }
}

#[test]
fn a_reply_that_is_no_json_is_an_error() {
    let fault = "error decoding response body".to_string();
    assert_eq!(fetch_version_strings("google", "win64", b"<html>"), Err(fault.clone()));
    assert_eq!(refresh_available_versions("google", "win64", b"").err(), Some(fault));
}

#[test]
fn the_cache_comes_before_what_was_shipped() {
    let shipped = "[\"113.0\"]";
    assert_eq!(load_version_strings(Some("[\"114.0\"]".to_string()), shipped), vec!["114.0"]);
    assert_eq!(load_version_strings(None, shipped), vec!["113.0"]);
    assert_eq!(load_version_strings(Some("spoilt".to_string()), shipped), vec!["113.0"]);
    assert!(load_version_strings(Some("[]".to_string()), shipped).is_empty());
    assert!(load_version_strings(None, "spoilt").is_empty());
}

#[test]
fn available_versions_follow_the_download_source() {
    let config = Some("{\"download_source\":\"npmmirror\"}".to_string());
    let list = get_available_versions(config, None, "[\"113.0\",\"114.0\",\"x/y\"]", "win64");
    assert_eq!(list.len(), 2);
    assert_eq!(list[0].version, "114.0");
    assert_eq!(
        list[0].download_url,
        "https://registry.npmmirror.com/-/binary/chrome-for-testing/114.0/win64/chrome-win64.zip",
    );
    assert_eq!(list[1].version, "113.0");
}

#[test]
fn fresh_versions_are_known_from_the_cache() {
    let fresh = refresh_available_versions("google", "win64", GOOGLE.as_bytes()).ok().unwrap();
    assert_eq!(fresh.cache, "[\"113.0.5672.0\",\"116.0.3\"]");
    assert_eq!(
        load_version_strings(Some(fresh.cache), "[]"),
        vec!["113.0.5672.0", "116.0.3"],
    );
    assert_eq!(fresh.list[0].version, "116.0.3");
    assert_eq!(fresh.list[1].version, "113.0.5672.0");
    assert_eq!(fresh.list.len(), 2);
}

#[test]
fn an_empty_listing_is_an_error() {
    assert_eq!(
        refresh_available_versions("npmmirror", "win64", b"[]").err(),
        Some("未获取到版本列表".to_string()),
    );
}

#[test]
fn what_was_fresh_is_offered_again_from_the_cache() {
    let fresh = refresh_available_versions("google", "win64", GOOGLE.as_bytes()).ok().unwrap();
    let later = get_available_versions(None, Some(fresh.cache), "[]", "win64");
    let of = |list: &Vec<VersionInfo>| -> Vec<(String, String)> {
        list.iter().map(|v| (v.version.clone(), v.download_url.clone())).collect()
    };
    assert_eq!(of(&later), of(&fresh.list));
}
