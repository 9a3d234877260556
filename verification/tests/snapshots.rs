use chrometester::json::parse_text;
use chrometester::snapshots::{
    choose_position, continue_resolving, find_archive, google_archive, list_snapshot_positions,
    mirror_archive, mirror_files_url, mirror_list_url, positions_in_mirror_listing,
    resolve_snapshot, resolve_snapshot_google, resolve_snapshot_npm, snapshot_files_url,
    snapshot_list_url, GoogleStage, MirrorStage, Resolution, Stage,
};

const API: &str = "https://www.googleapis.com/storage/v1/b/chromium-browser-snapshots/o";

fn strings(list: &[&str]) -> Vec<String> {
    list.iter().map(|s| s.to_string()).collect()
}

fn asked(next: Resolution) -> (String, Stage) {
    match next {
        Resolution::Ask { url, stage } => (url, stage),
        Resolution::Done(result) => panic!("the search ended with {result:?}"),
    }
}

fn ended(next: Resolution) -> Result<String, String> {
    match next {
        Resolution::Ask { url, .. } => panic!("the search asked for {url}"),
        Resolution::Done(result) => result,
    }
}

#[test]
fn positions_in_the_listing_of_google() {
    let data = parse_text(
        "{\"prefixes\":[\"Win_x64/530368/\",\"Win_x64/530371/\",\"Win_x64/x/\",7,\"12\"]}",
    )
    .unwrap();
    assert_eq!(list_snapshot_positions(&data), vec![530368, 530371, 12]);
    assert!(list_snapshot_positions(&parse_text("[]").unwrap()).is_empty());
}

#[test]
fn positions_in_the_listing_of_the_mirror() {
    let data = parse_text("[{\"name\":\"530368/\"},{\"name\":\"LAST_CHANGE\"},{\"name\":\"5\"},{}]")
        .unwrap();
    assert_eq!(positions_in_mirror_listing(&data), vec![530368, 5]);
}

#[test]
fn the_last_position_before_the_branch_point_is_taken() {
    assert_eq!(choose_position(&vec![530371, 530360, 530368], 530369), Some(530368));
    assert_eq!(choose_position(&vec![530369, 530367], 530369), Some(530367));
}

#[test]
fn without_one_before_the_nearest_position_is_taken() {
    assert_eq!(choose_position(&vec![530379, 530371, 530390], 530369), Some(530371));
    assert_eq!(choose_position(&vec![530369], 530369), Some(530369));
    assert_eq!(choose_position(&vec![], 530369), None);
}

#[test]
fn addresses_of_listings() {
    assert_eq!(
        snapshot_list_url("Win_x64", "5303"),
        format!("{API}?delimiter=/&prefix=Win_x64/5303&fields=prefixes&maxResults=500"),
    );
    assert_eq!(
        snapshot_files_url("Win_x64", 530368),
        format!("{API}?prefix=Win_x64/530368/&fields=items(name)"),
    );
    assert_eq!(
        mirror_list_url("Mac"),
        "https://registry.npmmirror.com/-/binary/chromium-browser-snapshots/Mac/",
    );
    assert_eq!(
        mirror_files_url("Mac", 5),
        "https://registry.npmmirror.com/-/binary/chromium-browser-snapshots/Mac/5/",
    );
}

#[test]
fn archives_are_found_by_their_endings() {
    assert_eq!(
        find_archive(&strings(&["p/chrome-linux.zip", "p/chrome-win32.zip", "p/chromedriver.zip"])),
        Some("p/chrome-win32.zip".to_string()),
    );
    assert_eq!(
        find_archive(&strings(&["a/chrome-mac.zip", "b/chrome-mac.zip"])),
        Some("a/chrome-mac.zip".to_string()),
    );
    assert_eq!(find_archive(&strings(&["chrome-win.zip.sha"])), None);
    assert_eq!(find_archive(&vec![]), None);
}

#[test]
fn addresses_of_snapshot_archives() {
    let google = parse_text("{\"items\":[{\"name\":\"Win/5/x\"},{\"name\":\"Win/5/chrome-win.zip\"}]}");
    assert_eq!(
        google_archive(&google.unwrap()),
        Some(
            "https://commondatastorage.googleapis.com/chromium-browser-snapshots/Win/5/chrome-win.zip"
                .to_string(),
        ),
    );
    let mirror = parse_text("[{\"name\":\"chrome-mac.zip\"},{}]").unwrap();
    assert_eq!(
        mirror_archive("Mac", 5, &mirror),
        Some(
            "https://registry.npmmirror.com/-/binary/chromium-browser-snapshots/Mac/5/chrome-mac.zip"
                .to_string(),
        ),
    );
    assert_eq!(mirror_archive("Mac", 5, &parse_text("{}").unwrap()), None);
}

#[test]
fn a_search_at_google() {
    let (url, stage) = asked(resolve_snapshot("google", "Win_x64", 530369));
    assert_eq!(url, snapshot_list_url("Win_x64", "5303"));
    let body = b"{\"prefixes\":[\"Win_x64/530371/\",\"Win_x64/530368/\"]}";
    let (url, stage) = asked(continue_resolving("Win_x64", 530369, stage, body));
    assert_eq!(url, snapshot_files_url("Win_x64", 530368));
    let body = b"{\"items\":[{\"name\":\"Win_x64/530368/chrome-win.zip\"}]}";
    assert_eq!(
        ended(continue_resolving("Win_x64", 530369, stage, body)),
        Ok("https://commondatastorage.googleapis.com/chromium-browser-snapshots/Win_x64/530368/chrome-win.zip".to_string()),
    );
}

#[test]
fn a_search_at_google_widens_three_times() {
    let empty = b"{}";
    let (url, stage) = asked(resolve_snapshot("google", "Win", 530369));
    assert_eq!(url, snapshot_list_url("Win", "5303"));
    let (url, stage) = asked(continue_resolving("Win", 530369, stage, empty));
    assert_eq!(url, snapshot_list_url("Win", "530"));
    let (url, stage) = asked(continue_resolving("Win", 530369, stage, empty));
    assert_eq!(url, snapshot_list_url("Win", "53"));
    assert_eq!(
        ended(continue_resolving("Win", 530369, stage, empty)),
        Err("未在快照库中找到可用构建".to_string()),
    );
}

#[test]
fn short_branch_points_cannot_be_searched_at_google() {
    let fault = Err("未在快照库中找到可用构建".to_string());
    assert_eq!(ended(resolve_snapshot("google", "Win", 99)), fault);
    let (url, stage) = asked(resolve_snapshot("google", "Win", 123));
    assert_eq!(url, snapshot_list_url("Win", "1"));
    assert_eq!(ended(continue_resolving("Win", 123, stage, b"[]")), fault);
}

#[test]
fn listed_positions_lie_near_the_branch_point() {
    let body = b"{\"prefixes\":[\"Win/530300/\"]}";
    let (_, stage) = asked(resolve_snapshot("google", "Win", 530369));
    let (url, _) = asked(continue_resolving("Win", 530369, stage, body));
    assert_eq!(url, snapshot_files_url("Win", 530300));
    assert!(530369u64.abs_diff(530300) < 100);
}

#[test]
fn a_search_on_the_mirror() {
    let (url, stage) = asked(resolve_snapshot("npmmirror", "Mac", 530369));
    assert_eq!(url, mirror_list_url("Mac"));
    let body = b"[{\"name\":\"530000/\"},{\"name\":\"530368/\"},{\"name\":\"600000/\"}]";
    let (url, stage) = asked(continue_resolving("Mac", 530369, stage, body));
    assert_eq!(url, mirror_files_url("Mac", 530368));
    let body = b"[{\"name\":\"chrome-mac.zip\"}]";
    assert_eq!(
        ended(continue_resolving("Mac", 530369, stage, body)),
        Ok("https://registry.npmmirror.com/-/binary/chromium-browser-snapshots/Mac/530368/chrome-mac.zip".to_string()),
    );
}

#[test]
fn searches_that_find_nothing() {
    let data = parse_text("[]").unwrap();
    assert_eq!(
        ended(resolve_snapshot_google("Win", 530369, GoogleStage::Files, &data)),
        Err("快照中未找到浏览器压缩包".to_string()),
    );
    assert_eq!(
        ended(resolve_snapshot_google("Win", 530369, GoogleStage::Listing { cut: 4 }, &data)),
        Err("未在快照库中找到可用构建".to_string()),
    );
    assert_eq!(
        ended(resolve_snapshot_npm("Win", 530369, MirrorStage::Listing, &data)),
        Err("镜像快照库中未找到可用构建".to_string()),
    );
    assert_eq!(
        ended(resolve_snapshot_npm("Win", 530369, MirrorStage::Files { position: 5 }, &data)),
        Err("镜像快照中未找到浏览器压缩包".to_string()),
    );
}

#[test]
fn an_answer_that_is_no_json_ends_the_search() {
    let fault = Err("error decoding response body".to_string());
    for stage in [
        Stage::Google(GoogleStage::Listing { cut: 2 }),
        Stage::Google(GoogleStage::Files),
        Stage::Mirror(MirrorStage::Listing),
        Stage::Mirror(MirrorStage::Files { position: 1 }),
    ] {
        assert_eq!(ended(continue_resolving("Win", 530369, stage, b"<xml>")), fault);
    }
}
