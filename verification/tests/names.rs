use chrometester::names::validate_name;

#[test]
fn names_with_letters_numbers_underscores_and_hyphens_pass() {
    for name in ["work", "测试_1", "a-b", "ÜberÑ", "٣", "x"] {
        assert_eq!(validate_name(name), Ok(()));
    }
    assert_eq!(validate_name(&"a".repeat(64)), Ok(()));
}

#[test]
fn blank_names_are_refused() {
    for name in ["", " ", "\t\n", "\u{3000}"] {
        assert_eq!(validate_name(name), Err("名称不能为空".to_string()));
    }
}

#[test]
fn long_names_are_refused_by_their_bytes() {
    assert_eq!(validate_name(&"a".repeat(65)), Err("名称过长".to_string()));
    assert_eq!(validate_name(&"中".repeat(21)), Ok(()));
    assert_eq!(validate_name(&"中".repeat(22)), Err("名称过长".to_string()));
    assert_eq!(validate_name(&"/".repeat(65)), Err("名称过长".to_string()));
}

#[test]
fn names_that_could_lead_elsewhere_are_refused() {
    for name in ["a b", "../x", "a/b", "a\\b", "a.b", "C:", "a*", " a", "😀"] {
        assert_eq!(
            validate_name(name),
            Err("名称仅支持字母、数字、下划线、连字符".to_string()),
        );
    }
}

#[test]
fn names_of_devices_are_refused() {
    for name in [
        "CON", "con", "Con", "PRN", "AUX", "aUx", "NUL", "nul", "COM0", "Com1", "COM9", "LPT1",
        "lpt0", "COM¹", "com²", "LPT³",
    ] {
        assert_eq!(validate_name(name), Err("名称为系统保留名称".to_string()));
    }
}

#[test]
fn names_that_only_look_like_devices_pass() {
    for name in [
        "console", "COM10", "COM", "LPT", "COMx", "CO", "CON1", "CON-", "_NUL", "LPT⁴", "xCON",
        "com_1", "default",
    ] {
        assert_eq!(validate_name(name), Ok(()));
    }
}
