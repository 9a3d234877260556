use chrometester::versions::{
    build_version_list, cft_download_url, check_download, check_milestone_not_installed,
    check_not_installed, chromium_label, delete_version, get_installed_versions, is_valid_version,
    open_version_folder, validate_version, version_key, FoundEntry, CFT_BASE, NPM_CFT_BASE,
};

fn strings(list: &[&str]) -> Vec<String> {
    list.iter().map(|s| s.to_string()).collect()
}

fn entry(name: &str, path: &str, is_dir: bool) -> FoundEntry {
    FoundEntry { name: name.to_string(), path: path.to_string(), is_dir }
}

#[test]
fn key_of_a_dotted_version() {
    assert_eq!(version_key("114.0.5735.90"), vec![114, 0, 5735, 90]);
}

#[test]
fn key_of_a_milestone_directory_is_zero() {
    assert_eq!(version_key("chromium-M65"), vec![0]);
}

#[test]
fn parts_that_are_no_numbers_count_as_zero() {
    assert_eq!(version_key(""), vec![0]);
    assert_eq!(version_key("1..2"), vec![1, 0, 2]);
    assert_eq!(version_key("1.x.99999999999999999999"), vec![1, 0, 0]);
    assert_eq!(version_key("+1.-1"), vec![1, 0]);
}

#[test]
fn versions_that_may_name_a_directory() {
    for version in ["114.0.5735.90", "chromium-M65", "113", "chromium-M0", "99999999999999999999.1"] {
        assert_eq!(validate_version(version), Ok(()));
        assert!(is_valid_version(version));
    }
}

#[test]
fn versions_that_may_not_name_a_directory() {
    for version in [
        "", ".", "..", "1..2", "1.", ".1", "../x", "a/b", "a\\b", "C:", "1.0 ", "版本", "a_b", "abc",
        "1.2-beta", "-1", "+1", "1.x", "chromium", "chromium-M", "chromium-M1.0", "chromium-m65",
        "chromium-M65 ", "xchromium-M65", "-",
    ] {
        assert_eq!(validate_version(version), Err("非法版本号".to_string()));
        assert!(!is_valid_version(version));
    }
}

#[test]
fn addresses_of_archives() {
    assert_eq!(
        cft_download_url("npmmirror", "114.0.5735.90", "win64"),
        "https://registry.npmmirror.com/-/binary/chrome-for-testing/114.0.5735.90/win64/chrome-win64.zip",
    );
    assert_eq!(
        cft_download_url("google", "114.0.5735.90", "mac-arm64"),
        "https://storage.googleapis.com/chrome-for-testing-public/114.0.5735.90/mac-arm64/chrome-mac-arm64.zip",
    );
    assert_eq!(
        cft_download_url("", "1", "linux64"),
        "https://storage.googleapis.com/chrome-for-testing-public/1/linux64/chrome-linux64.zip",
    );
}

#[test]
fn the_newest_version_is_listed_first() {
    let list = build_version_list(
        "google",
        "win64",
        strings(&["9.0", "114.0.5735.90", "bad/one", "114.0.5735.133", "113.0.5672.0", "114"]),
    );
    let versions: Vec<&str> = list.iter().map(|v| v.version.as_str()).collect();
    assert_eq!(versions, vec!["114.0.5735.133", "114.0.5735.90", "114", "113.0.5672.0", "9.0"]);
    assert_eq!(
        list[0].download_url,
        "https://storage.googleapis.com/chrome-for-testing-public/114.0.5735.133/win64/chrome-win64.zip",
    );
}

#[test]
fn versions_with_the_same_key_keep_their_order() {
    let list = build_version_list("google", "win64", strings(&["01.0", "2", "1.0", "b", "1.00"]));
    let versions: Vec<&str> = list.iter().map(|v| v.version.as_str()).collect();
    assert_eq!(versions, vec!["2", "01.0", "1.0", "1.00"]);
}

#[test]
fn offered_versions_can_be_downloaded() {
    for source in ["google", "npmmirror"] {
        for v in build_version_list(source, "win64", strings(&["114.0", "x", "113.0"])) {
            assert_eq!(check_download(&v.version, &v.download_url), Ok(()));
        }
    }
}

#[test]
fn downloads_from_elsewhere_are_refused() {
    let fault = Err("非法下载地址".to_string());
    assert_eq!(check_download("114.0", "https://example.com/chrome.zip"), fault);
    assert_eq!(check_download("114.0", ""), fault);
    assert_eq!(check_download("114.0", "http://storage.googleapis.com/chrome-for-testing-public/"), fault);
    assert_eq!(check_download("../x", "https://example.com/"), Err("非法版本号".to_string()));
    assert_eq!(check_download("114.0", CFT_BASE), Ok(()));
    assert_eq!(check_download("114.0", NPM_CFT_BASE), Ok(()));
}

#[test]
fn a_version_is_not_installed_twice() {
    assert_eq!(check_not_installed(false), Ok(()));
    assert_eq!(check_not_installed(true), Err("版本已存在".to_string()));
    assert_eq!(check_milestone_not_installed(false), Ok(()));
    assert_eq!(check_milestone_not_installed(true), Err("该版本已存在".to_string()));
}

#[test]
fn installed_versions_are_the_directories_found_first() {
    let list = get_installed_versions(vec![
        entry("chromium-M65", "/a/chromium-M65", true),
        entry("114.0", "/a/114.0", true),
        entry("notes.txt", "/a/notes.txt", false),
        entry("115.0", "/a/115.0", false),
        entry("114.0", "/b/114.0", true),
        entry("115.0", "/b/115.0", true),
    ]);
    let found: Vec<(&str, &str)> =
        list.iter().map(|v| (v.version.as_str(), v.path.as_str())).collect();
    assert_eq!(
        found,
        vec![("115.0", "/b/115.0"), ("114.0", "/a/114.0"), ("chromium-M65", "/a/chromium-M65")],
    );
    assert!(get_installed_versions(vec![]).is_empty());
}

#[test]
fn label_of_a_milestone() {
    assert_eq!(chromium_label(65), "chromium-M65");
    assert_eq!(chromium_label(0), "chromium-M0");
    assert_eq!(chromium_label(u32::MAX), "chromium-M4294967295");
    assert_eq!(validate_version(&chromium_label(65)), Ok(()));
    assert_eq!(version_key(&chromium_label(65)), vec![0]);
}

#[test]
fn dotted_numbers_are_valid_versions() {
    for version in ["0", "114.0", "1.2.3.4.5", "00.1"] {
        assert_eq!(validate_version(version), Ok(()));
    }
}

#[test]
fn a_version_is_deleted_where_it_is_found_first() {
    assert_eq!(delete_version("114.0", &vec![false, true, true]), Ok(Some(1)));
    assert_eq!(delete_version("114.0", &vec![false, false]), Ok(None));
    assert_eq!(delete_version("114.0", &vec![]), Ok(None));
    for version in [".", "..", "abc"] {
        assert_eq!(delete_version(version, &vec![true]), Err("非法版本号".to_string()));
    }
}

#[test]
fn a_folder_is_opened_where_it_is_found_first() {
    assert_eq!(open_version_folder("114.0", &vec![true, true]), Ok(0));
    assert_eq!(open_version_folder("114.0", &vec![false]), Err("目录不存在".to_string()));
    assert_eq!(open_version_folder("a/b", &vec![true]), Err("非法版本号".to_string()));
}

#[test]
fn milestone_directories_are_listed_after_versions() {
    let list = get_installed_versions(vec![
        entry("chromium-M65", "/a/chromium-M65", true),
        entry("0.1", "/a/0.1", true),
        entry("9", "/a/9", true),
    ]);
    let versions: Vec<&str> = list.iter().map(|v| v.version.as_str()).collect();
    assert_eq!(versions, vec!["9", "0.1", "chromium-M65"]);
}
