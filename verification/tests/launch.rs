use chrometester::config::load_config;
use chrometester::launch::{
    candidates, find_executable, find_launch_dir, launch_args, profile_path, start_fault,
    user_data_arg, uses_profile,
};
use chrometester::names::validate_name;

#[test]
fn a_version_is_launched_from_where_it_is_found_first() {
    assert_eq!(find_launch_dir("114.0", "default", &vec![false, true]), Ok(1));
    assert_eq!(
        find_launch_dir("114.0", "default", &vec![false]),
        Err("未找到该版本目录".to_string()),
    );
}

#[test]
fn bad_versions_and_names_are_not_launched() {
    assert_eq!(find_launch_dir("..", "", &vec![true]), Err("非法版本号".to_string()));
    assert_eq!(find_launch_dir(".", "default", &vec![true]), Err("非法版本号".to_string()));
    assert_eq!(find_launch_dir("114.0", " ", &vec![true]), Err("名称不能为空".to_string()));
    assert_eq!(
        find_launch_dir("114.0", "a/b", &vec![]),
        Err("名称仅支持字母、数字、下划线、连字符".to_string()),
    );
}

#[test]
fn where_the_file_to_run_is_looked_for() {
    let paths: Vec<String> = candidates().iter().map(|parts| parts.join("/")).collect();
    assert_eq!(
        paths,
        vec![
            "chrome-win64/chrome.exe",
            "chrome-win32/chrome.exe",
            "chrome-win/chrome.exe",
            "chrome.exe",
            "chrome-linux64/chrome",
            "chrome-linux/chrome",
            "chrome-mac-arm64/Google Chrome for Testing.app/Contents/MacOS/Google Chrome for Testing",
            "chrome-mac/Chromium.app/Contents/MacOS/Chromium",
        ],
    );
}

#[test]
fn the_first_file_that_is_there_is_run() {
    assert_eq!(find_executable(&vec![false, false, true, true]), Ok(2));
    assert_eq!(find_executable(&vec![false]), Err("未找到Chrome可执行文件".to_string()));
}

#[test]
fn the_default_profile_has_a_directory_for_each_version() {
    assert_eq!(profile_path("default", "114.0"), vec!["default", "114.0"]);
    assert_eq!(profile_path("work", "114.0"), vec!["work"]);
    assert_eq!(profile_path("work", "115.0"), vec!["work"]);
    assert_ne!(profile_path("default", "114.0"), profile_path("default", "115.0"));
}

#[test]
fn data_of_a_launch_stays_below_the_profiles() {
    assert_eq!(validate_name("work"), Ok(()));
    for part in profile_path("default", "114.0").into_iter().chain(profile_path("work", "1")) {
        assert!(!part.contains('/') && !part.contains('\\') && part != "..");
    }
}

#[test]
fn arguments_of_a_launch() {
    let text = "{\"profiles\":{\"work\":[\"--lang=en-US\",\"--incognito\"]}}";
    let cfg = load_config(Some(text.to_string()));
    assert_eq!(
        launch_args(&cfg, "work", "/p/work"),
        vec!["--user-data-dir=/p/work", "--no-first-run", "--lang=en-US", "--incognito"],
    );
    assert_eq!(
        launch_args(&cfg, "other", "/p/other"),
        vec!["--user-data-dir=/p/other", "--no-first-run"],
    );
    assert_eq!(user_data_arg("x y"), "--user-data-dir=x y");
}

#[test]
fn a_browser_is_found_by_its_data_directory_to_the_letter() {
    let launched = launch_args(&load_config(None), "work", "/p/work");
    assert!(uses_profile(&launched, "/p/work"));
    assert!(!uses_profile(&launched, "/p/work2"));
    assert!(!uses_profile(&launched, "/p/wor"));
    assert!(!uses_profile(&launched, ""));
    assert!(!uses_profile(&[], "/p/work"));
}

#[test]
fn a_browser_that_does_not_start() {
    assert_eq!(start_fault("denied"), "启动失败: denied");
}
