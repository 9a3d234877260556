use chrometester::config::{
    all_install_dirs, custom_install_dir, dir_in_force, download_source, find_version_dir,
    get_install_dir,
    install_dir_candidates, install_dir_history, load_config, record_install_dir,
    requested_install_dir, set_download_source, set_install_dir, unavailable_dir, Candidate,
};
use chrometester::json::{parse_text, print_text, Json};

fn cfg(text: &str) -> Json {
    load_config(Some(text.to_string()))
}

#[test]
fn settings_that_cannot_be_read_are_empty() {
    assert_eq!(print_text(load_config(None)), "{}");
    assert_eq!(print_text(cfg("not json")), "{}");
    assert_eq!(print_text(cfg("[1]")), "[\n  1\n]");
}

#[test]
fn the_download_source_is_google_unless_the_mirror_is_set() {
    assert_eq!(download_source(&load_config(None)), "google");
    assert_eq!(download_source(&cfg("{\"download_source\":\"npmmirror\"}")), "npmmirror");
    assert_eq!(download_source(&cfg("{\"download_source\":\"google\"}")), "google");
    assert_eq!(download_source(&cfg("{\"download_source\":\"elsewhere\"}")), "google");
    assert_eq!(download_source(&cfg("{\"download_source\":1}")), "google");
    assert_eq!(download_source(&cfg("\"npmmirror\"")), "google");
}

#[test]
fn the_download_source_that_was_set_is_read_back() {
    let text = set_download_source(None, "npmmirror").unwrap();
    assert_eq!(text, "{\n  \"download_source\": \"npmmirror\"\n}");
    assert_eq!(download_source(&cfg(&text)), "npmmirror");
    let text = set_download_source(Some(text), "whatever").unwrap();
    assert_eq!(download_source(&cfg(&text)), "google");
    let text = set_download_source(Some("{\"x\":[1]}".to_string()), "google").unwrap();
    assert_eq!(text, "{\n  \"download_source\": \"google\",\n  \"x\": [\n    1\n  ]\n}");
}

#[test]
fn settings_that_are_no_object_are_not_changed() {
    let fault = Err("配置格式错误".to_string());
    assert_eq!(set_download_source(Some("[]".to_string()), "google"), fault);
    assert_eq!(set_install_dir(Some("null".to_string()), None, "/x"), fault);
    assert_eq!(requested_install_dir(&cfg("1"), "/x"), Err("配置格式错误".to_string()));
}

#[test]
fn the_chosen_install_dir_is_trimmed() {
    assert_eq!(custom_install_dir(&cfg("{\"install_dir\":\" /data \"}")), Some("/data".to_string()));
    assert_eq!(custom_install_dir(&cfg("{\"install_dir\":\"  \"}")), None);
    assert_eq!(custom_install_dir(&cfg("{\"install_dir\":7}")), None);
    assert_eq!(custom_install_dir(&load_config(None)), None);
}

#[test]
fn the_install_dir_in_use_is_the_chosen_one_or_the_default() {
    let default = || "/d/chrome".to_string();
    let chosen = cfg("{\"install_dir\":\" /data \"}");
    assert_eq!(dir_in_force(&chosen, default()), "/data");
    assert_eq!(dir_in_force(&load_config(None), default()), "/d/chrome");
    assert_eq!(dir_in_force(&cfg("{\"install_dir\":\" \"}"), default()), "/d/chrome");
    let info = get_install_dir(&chosen, default());
    assert_eq!(info.path, "/data");
    assert!(info.is_custom);
    let info = get_install_dir(&load_config(None), default());
    assert_eq!(info.path, "/d/chrome");
    assert!(!info.is_custom);
}

#[test]
fn the_install_dir_that_was_set_is_in_force() {
    let default = || "/d/chrome".to_string();
    let text = set_install_dir(None, Some(default()), " /new ").unwrap();
    assert_eq!(dir_in_force(&cfg(&text), default()), "/new");
    let text = set_install_dir(Some(text), Some("/new".to_string()), " ").unwrap();
    assert_eq!(dir_in_force(&cfg(&text), default()), "/d/chrome");
}

#[test]
fn settings_with_any_numbers_are_read_back() {
    let text = "{\"a\":-5,\"b\":1.5,\"c\":[1.7976931348623157e308,5e-324,-0.0,1e20,1e300],\
        \"d\":-9223372036854775808,\"install_dirs\":[2.5,\"/a\"]}";
    let text = set_download_source(Some(text.to_string()), "npmmirror").unwrap();
    assert_eq!(download_source(&cfg(&text)), "npmmirror");
    let text = set_install_dir(Some(text), Some("/b".to_string()), "/c").unwrap();
    let after = cfg(&text);
    assert_eq!(download_source(&after), "npmmirror");
    assert_eq!(custom_install_dir(&after), Some("/c".to_string()));
    assert_eq!(install_dir_history(&after), vec!["/a", "/b", "/c"]);
    assert_eq!(after.unsigned_field("a"), None);
    assert_eq!(after.items_field("c").unwrap().len(), 5);
}

#[test]
fn settings_nested_as_deep_as_can_be_read_are_read_back() {
    let text = format!("{{\"a\":{}{}}}", "[".repeat(126), "]".repeat(126));
    let text = set_download_source(Some(text), "npmmirror").unwrap();
    let text = set_install_dir(Some(text), Some("/b".to_string()), "/c").unwrap();
    assert_eq!(download_source(&cfg(&text)), "npmmirror");
    assert_eq!(custom_install_dir(&cfg(&text)), Some("/c".to_string()));
}

#[test]
fn a_directory_is_recorded_once() {
    let once = record_install_dir(load_config(None), "/a");
    assert_eq!(install_dir_history(&once), vec!["/a"]);
    let twice = record_install_dir(once, "/a");
    assert_eq!(install_dir_history(&twice), vec!["/a"]);
    let more = record_install_dir(twice, "/b");
    assert_eq!(install_dir_history(&more), vec!["/a", "/b"]);
}

#[test]
fn recording_leaves_other_values_alone() {
    let same = record_install_dir(cfg("{\"install_dirs\":\"x\"}"), "/a");
    assert_eq!(print_text(same), "{\n  \"install_dirs\": \"x\"\n}");
    assert_eq!(print_text(record_install_dir(cfg("[]"), "/a")), "[]");
    let mixed = record_install_dir(cfg("{\"install_dirs\":[1,\"/a\"],\"k\":2}"), "/b");
    assert_eq!(install_dir_history(&mixed), vec!["/a", "/b"]);
    assert_eq!(mixed.unsigned_field("k"), Some(2));
}

#[test]
fn a_switch_remembers_the_old_and_the_new_directory() {
    let text = set_install_dir(None, Some("/old".to_string()), " /new ").unwrap();
    let after = parse_text(&text).unwrap();
    assert_eq!(custom_install_dir(&after), Some("/new".to_string()));
    assert_eq!(install_dir_history(&after), vec!["/old", "/new"]);
    let text = set_install_dir(Some(text), Some("/new".to_string()), "  ").unwrap();
    let after = parse_text(&text).unwrap();
    assert_eq!(custom_install_dir(&after), None);
    assert_eq!(install_dir_history(&after), vec!["/old", "/new"]);
}

#[test]
fn a_switch_without_a_current_directory() {
    let text = set_install_dir(Some("{\"a\":1}".to_string()), None, "/new").unwrap();
    assert_eq!(
        text,
        "{\n  \"a\": 1,\n  \"install_dir\": \"/new\",\n  \"install_dirs\": [\n    \"/new\"\n  ]\n}",
    );
}

#[test]
fn settings_stay_readable_whatever_is_set() {
    let text = set_download_source(None, "npmmirror").unwrap();
    let text = set_install_dir(Some(text), Some("/a".to_string()), "/b").unwrap();
    let text = set_install_dir(Some(text), Some("/b".to_string()), "").unwrap();
    let after = parse_text(&text).unwrap();
    assert_eq!(download_source(&after), "npmmirror");
    assert_eq!(install_dir_history(&after), vec!["/a", "/b"]);
}

#[test]
fn the_directory_to_create() {
    assert_eq!(requested_install_dir(&load_config(None), " /x "), Ok(Some("/x".to_string())));
    assert_eq!(requested_install_dir(&load_config(None), " "), Ok(None));
    assert_eq!(unavailable_dir("denied"), "目录不可用: denied");
}

#[test]
fn directories_are_searched_in_order() {
    let names = |list: Vec<Candidate>| -> Vec<String> {
        list.into_iter()
            .map(|c| match c {
                Candidate::Current => "current".to_string(),
                Candidate::Default => "default".to_string(),
                Candidate::Past(dir) => dir,
            })
            .collect()
    };
    let settings = cfg("{\"install_dirs\":[\"/a\",3,\"/b\"]}");
    assert_eq!(
        names(install_dir_candidates(&settings, true, true)),
        vec!["current", "default", "/a", "/b"],
    );
    assert_eq!(names(install_dir_candidates(&settings, false, true)), vec!["default", "/a", "/b"]);
    assert_eq!(names(install_dir_candidates(&load_config(None), true, false)), vec!["current"]);
}

#[test]
fn directories_that_are_there_are_searched_once() {
    assert_eq!(
        all_install_dirs(&vec![true, true, false, true, true], &vec![0, 0, 2, 3, 3]),
        vec![0, 3],
    );
    assert_eq!(all_install_dirs(&vec![false, true], &vec![0, 0]), vec![1]);
    assert!(all_install_dirs(&vec![], &vec![]).is_empty());
}

#[test]
fn a_version_is_found_in_the_first_directory_that_has_it() {
    assert_eq!(find_version_dir(&vec![false, true, true]), Some(1));
    assert_eq!(find_version_dir(&vec![false]), None);
}
