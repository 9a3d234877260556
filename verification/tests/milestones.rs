use chrometester::json::parse_text;
use chrometester::milestones::{
    build_milestone_list, fetch_milestone_pairs, get_chromium_milestones, load_milestone_pairs,
    milestones_in_listing, refresh_chromium_milestones, select_milestone, MilestoneInfo,
};

const LISTING: &str = "[\
    {\"milestone\":65,\"chromium_main_branch_position\":530369},\
    {\"milestone\":113,\"chromium_main_branch_position\":1121455},\
    {\"milestone\":112,\"chromium_main_branch_position\":1109224},\
    {\"milestone\":60,\"chromium_main_branch_position\":0},\
    {\"milestone\":61},\
    {\"chromium_main_branch_position\":5},\
    {\"milestone\":-1,\"chromium_main_branch_position\":7},\
    {\"milestone\":62,\"chromium_main_branch_position\":\"8\"}]";

#[test]
fn milestones_older_than_chrome_for_testing_are_taken() {
    assert_eq!(
        fetch_milestone_pairs(LISTING.as_bytes()),
        Ok(vec![(65, 530369), (112, 1109224)]),
    );
    let data = parse_text(LISTING).unwrap();
    for (milestone, position) in milestones_in_listing(&data) {
        assert!(milestone < 113 && position > 0);
    }
}

#[test]
fn milestones_are_selected_by_number_and_branch_point() {
    assert_eq!(select_milestone(Some(112), Some(1)), Some((112, 1)));
    assert_eq!(select_milestone(Some(113), Some(1)), None);
    assert_eq!(select_milestone(Some(112), Some(0)), None);
    assert_eq!(select_milestone(None, Some(1)), None);
    assert_eq!(select_milestone(Some(1), None), None);
    assert_eq!(select_milestone(Some(0x1_0000_0005), Some(9)), None);
    assert_eq!(select_milestone(Some(u64::MAX), Some(9)), None);
}

#[test]
fn what_is_no_list_has_no_milestones() {
    assert_eq!(fetch_milestone_pairs(b"{}"), Ok(vec![]));
    assert_eq!(
        fetch_milestone_pairs(b"oops"),
        Err("error decoding response body".to_string()),
    );
}

#[test]
fn the_newest_milestone_is_listed_first() {
    let list = build_milestone_list("google", "Win_x64", vec![(65, 1), (112, 2), (65, 3)]);
    let found: Vec<(u32, u64)> = list.iter().map(|m| (m.milestone, m.position)).collect();
    assert_eq!(found, vec![(112, 2), (65, 1), (65, 3)]);
    assert_eq!(
        list[0].snapshot_url,
        "https://commondatastorage.googleapis.com/chromium-browser-snapshots/Win_x64/2/",
    );
    let list = build_milestone_list("npmmirror", "Mac", vec![(65, 530369)]);
    assert_eq!(
        list[0].snapshot_url,
        "https://registry.npmmirror.com/-/binary/chromium-browser-snapshots/Mac/530369/",
    );
}

#[test]
fn cached_milestones_come_before_shipped_ones() {
    let shipped = "[[65,530369]]";
    assert_eq!(load_milestone_pairs(Some("[[70,5]]".to_string()), shipped), vec![(70, 5)]);
    assert_eq!(load_milestone_pairs(Some("{}".to_string()), shipped), vec![(65, 530369)]);
    assert_eq!(load_milestone_pairs(None, shipped), vec![(65, 530369)]);
    assert!(load_milestone_pairs(None, "").is_empty());
    let list = get_chromium_milestones(None, None, shipped, "Linux_x64");
    assert_eq!(list.len(), 1);
    assert_eq!(list[0].milestone, 65);
}

#[test]
fn fresh_milestones_are_known_from_the_cache() {
    let fresh = refresh_chromium_milestones("google", "Win", LISTING.as_bytes()).ok().unwrap();
    assert_eq!(fresh.cache, "[[65,530369],[112,1109224]]");
    assert_eq!(load_milestone_pairs(Some(fresh.cache), "[]"), vec![(65, 530369), (112, 1109224)]);
    assert_eq!(fresh.list[0].milestone, 112);
    assert_eq!(fresh.list.len(), 2);
}

#[test]
fn no_milestones_are_an_error() {
    assert_eq!(
        refresh_chromium_milestones("google", "Win", b"[]").err(),
        Some("未获取到里程碑列表".to_string()),
    );
    assert_eq!(
        refresh_chromium_milestones("google", "Win", b"[").err(),
        Some("error decoding response body".to_string()),
    );
}

#[test]
fn milestones_are_offered_again_from_the_cache() {
    let fresh = refresh_chromium_milestones("google", "Win", LISTING.as_bytes()).ok().unwrap();
    let later = get_chromium_milestones(None, Some(fresh.cache), "[]", "Win");
    let of = |list: &Vec<MilestoneInfo>| -> Vec<(u32, u64, String)> {
        list.iter().map(|m| (m.milestone, m.position, m.snapshot_url.clone())).collect()
    };
    assert_eq!(of(&later), of(&fresh.list));
}
