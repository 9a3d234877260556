use chrometester::config::{download_source, load_config};
use chrometester::json::{parse_text, Json};
use chrometester::profiles::{
    check_new_profile, clean_args, create_profile, delete_profile, has_profile, list_profiles,
    load_profiles_obj, profile_args, profile_names, save_profiles_obj, update_profile, MAX_ARGS,
};

fn strings(list: &[&str]) -> Vec<String> {
    list.iter().map(|s| s.to_string()).collect()
}

fn cfg(text: &str) -> Json {
    load_config(Some(text.to_string()))
}

#[test]
fn arguments_are_trimmed_and_blank_ones_dropped() {
    assert_eq!(
        clean_args(strings(&[" --lang=en-US ", "", "  ", "--incognito"])),
        vec!["--lang=en-US", "--incognito"],
    );
    assert!(clean_args(vec![]).is_empty());
}

#[test]
fn at_most_fifty_arguments_are_kept() {
    let mut args: Vec<String> = vec![" ".to_string()];
    for i in 0..60 {
        args.push(format!("--a={i}"));
    }
    let cleaned = clean_args(args);
    assert_eq!(cleaned.len(), MAX_ARGS);
    assert_eq!(cleaned.len(), 50);
    assert_eq!(cleaned[0], "--a=0");
    assert_eq!(cleaned[49], "--a=49");
}

#[test]
fn cleaning_twice_is_cleaning_once() {
    let once = clean_args(strings(&[" a", "b ", "\u{3000}", "c d"]));
    assert_eq!(clean_args(once.clone()), once);
}

#[test]
fn there_is_always_a_default_profile() {
    for text in ["{}", "[]", "{\"profiles\":1}", "{\"profiles\":{\"work\":[]}}"] {
        assert!(has_profile(&cfg(text), "default"));
        assert!(profile_args(&cfg(text), "default").is_empty());
        assert!(load_profiles_obj(cfg(text)).iter().any(|(name, _)| name == "default"));
    }
}

#[test]
fn a_profile_that_was_made_has_its_arguments() {
    let text = create_profile(
        Some("{\"download_source\":\"npmmirror\"}".to_string()),
        "work",
        strings(&[" --a ", ""]),
    )
    .unwrap();
    let after = parse_text(&text).unwrap();
    assert_eq!(profile_args(&after, "work"), vec!["--a"]);
    assert!(profile_args(&after, "default").is_empty());
    assert!(has_profile(&after, "default"));
    assert_eq!(download_source(&after), "npmmirror");
}

#[test]
fn the_text_of_a_new_profile() {
    let text = create_profile(None, "work", strings(&["--a"])).unwrap();
    assert_eq!(
        text,
        "{\n  \"profiles\": {\n    \"default\": [],\n    \"work\": [\n      \"--a\"\n    ]\n  }\n}",
    );
}

#[test]
fn a_profile_is_made_once() {
    let text = create_profile(None, "work", vec![]).unwrap();
    assert_eq!(
        create_profile(Some(text.clone()), "work", vec![]),
        Err("配置已存在".to_string()),
    );
    assert_eq!(create_profile(Some(text), "default", vec![]), Err("配置已存在".to_string()));
    assert_eq!(check_new_profile(&cfg("{}"), "other"), Ok(()));
    assert_eq!(check_new_profile(&cfg("{}"), "default"), Err("配置已存在".to_string()));
}

#[test]
fn profiles_with_bad_names_are_not_made() {
    assert_eq!(create_profile(None, "", vec![]), Err("名称不能为空".to_string()));
    assert_eq!(create_profile(None, &"a".repeat(65), vec![]), Err("名称过长".to_string()));
    assert_eq!(create_profile(None, "CON", vec![]), Err("名称为系统保留名称".to_string()));
    let fault = Err("名称仅支持字母、数字、下划线、连字符".to_string());
    assert_eq!(create_profile(None, "../x", vec![]), fault);
    assert_eq!(update_profile(None, "a b", vec![]), fault);
    assert_eq!(delete_profile(None, "a/b"), fault);
}

#[test]
fn settings_that_are_no_object_take_no_profile() {
    let fault = Err("配置格式错误".to_string());
    assert_eq!(create_profile(Some("[]".to_string()), "work", vec![]), fault);
    assert_eq!(update_profile(Some("1".to_string()), "work", vec![]), fault);
    assert_eq!(delete_profile(Some("null".to_string()), "work"), fault);
    assert!(save_profiles_obj(cfg("[]"), vec![]).is_err());
}

#[test]
fn an_update_replaces_the_arguments() {
    let text = create_profile(None, "work", strings(&["--a"])).unwrap();
    let text = update_profile(Some(text), "work", strings(&["--b", "--c"])).unwrap();
    let text = update_profile(Some(text), "default", strings(&["--d"])).unwrap();
    let text = update_profile(Some(text), "new", vec![]).unwrap();
    let after = parse_text(&text).unwrap();
    assert_eq!(profile_args(&after, "work"), vec!["--b", "--c"]);
    assert_eq!(profile_args(&after, "default"), vec!["--d"]);
    assert!(has_profile(&after, "new"));
}

#[test]
fn deleting_undoes_making() {
    let before = create_profile(None, "work", strings(&["--a"])).unwrap();
    let made = create_profile(Some(before.clone()), "test", strings(&["--b"])).unwrap();
    assert_eq!(delete_profile(Some(made), "test"), Ok(before));
}

#[test]
fn a_deleted_profile_is_gone_and_the_others_stay() {
    let text = create_profile(None, "work", strings(&["--a"])).unwrap();
    let text = create_profile(Some(text), "test", strings(&["--b"])).unwrap();
    let after = parse_text(&delete_profile(Some(text), "work").unwrap()).unwrap();
    assert!(!has_profile(&after, "work"));
    assert!(profile_args(&after, "work").is_empty());
    assert_eq!(profile_args(&after, "test"), vec!["--b"]);
    assert!(has_profile(&after, "default"));
}

#[test]
fn the_default_profile_is_not_deleted() {
    assert_eq!(delete_profile(None, "default"), Err("默认配置不可删除".to_string()));
    assert_eq!(
        delete_profile(Some("[]".to_string()), "default"),
        Err("默认配置不可删除".to_string()),
    );
}

#[test]
fn the_default_profile_is_listed_first() {
    let text = "{\"profiles\":{\"work\":[],\"a\":[],\"default\":[],\"测试\":[],\"Z\":[]}}";
    assert_eq!(profile_names(cfg(text)), vec!["default", "Z", "a", "work", "测试"]);
    assert_eq!(profile_names(cfg("{}")), vec!["default"]);
}

#[test]
fn profiles_are_listed_with_paths_and_arguments() {
    let text = "{\"profiles\":{\"work\":[\"--a\",1,\"--b\"]}}";
    let names = profile_names(cfg(text));
    let paths = strings(&["/p/default", "/p/work"]);
    let list = list_profiles(&cfg(text), names, paths);
    assert_eq!(list.len(), 2);
    assert_eq!(list[0].name, "default");
    assert_eq!(list[0].path, "/p/default");
    assert!(list[0].args.is_empty());
    assert_eq!(list[1].name, "work");
    assert_eq!(list[1].path, "/p/work");
    assert_eq!(list[1].args, vec!["--a", "--b"]);
}

#[test]
fn settings_stay_readable_whatever_profile_is_set() {
    let text = create_profile(None, "a", strings(&["x\"\\\n", "中"])).unwrap();
    let text = delete_profile(Some(text), "missing").unwrap();
    assert_eq!(profile_args(&parse_text(&text).unwrap(), "a"), vec!["x\"\\", "中"]);
}

#[test]
fn profiles_are_read_back_beside_any_numbers() {
    let text = "{\"x\":-1,\"profiles\":{\"odd\":[0.5,\"--o\"],\"gone\":[]}}".to_string();
    let text = create_profile(Some(text), "work", strings(&[" --a "])).unwrap();
    let text = update_profile(Some(text), "default", strings(&["--d"])).unwrap();
    let text = delete_profile(Some(text), "gone").unwrap();
    let after = parse_text(&text).unwrap();
    assert_eq!(profile_args(&after, "work"), vec!["--a"]);
    assert_eq!(profile_args(&after, "default"), vec!["--d"]);
    assert_eq!(profile_args(&after, "odd"), vec!["--o"]);
    assert!(!has_profile(&after, "gone"));
}
