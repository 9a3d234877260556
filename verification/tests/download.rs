use chrometester::download::{
    answer_event, archive_file_name, is_success, Download, DownloadProgress, Event, Phase, Step,
};

fn told(progress: &DownloadProgress) -> (&str, &str, u32, Option<&str>) {
    (&progress.version, &progress.status, progress.percent, progress.error.as_deref())
}

fn progress(step: &Step) -> (&str, &str, u32, Option<&str>) {
    told(step.progress.as_ref().unwrap())
}

fn text(s: &str) -> String {
    s.to_string()
}

fn receiving(length: Option<u64>) -> Download {
    let mut download = Download::begin("114.0").0;
    assert!(download.advance(Event::Answered(length)).result.is_none());
    download
}

fn extracting() -> Download {
    let mut download = receiving(None);
    download.advance(Event::Received);
    download
}

#[test]
fn a_download_that_succeeds() {
    let (mut download, first) = Download::begin("114.0");
    assert_eq!(told(&first), ("114.0", "downloading", 0, None));
    let step = download.advance(Event::Answered(Some(200)));
    assert!(step.progress.is_none() && step.result.is_none());
    let step = download.advance(Event::Chunk(1));
    assert!(step.progress.is_none());
    let step = download.advance(Event::Chunk(1));
    assert_eq!(progress(&step), ("114.0", "downloading", 1, None));
    let step = download.advance(Event::Chunk(198));
    assert_eq!(progress(&step), ("114.0", "downloading", 100, None));
    let step = download.advance(Event::Received);
    assert_eq!(progress(&step), ("114.0", "extracting", 100, None));
    assert!(step.result.is_none());
    let step = download.advance(Event::Extracted);
    assert_eq!(progress(&step), ("114.0", "completed", 100, None));
    assert_eq!(step.result, Some(Ok(())));
    assert!(step.remove_archive && !step.remove_target);
    assert!(matches!(download.phase, Phase::Ended));
}

#[test]
fn the_percentage_grows_to_a_hundred() {
    let mut download = receiving(Some(7));
    let mut percents: Vec<u32> = Vec::new();
    for _ in 0..7 {
        assert!(download.can_count(1));
        if let Some(p) = download.advance(Event::Chunk(1)).progress {
            percents.push(p.percent);
        }
    }
    assert_eq!(percents, vec![14, 28, 42, 57, 71, 85, 100]);
}

#[test]
fn no_percentage_without_a_total() {
    let mut download = receiving(None);
    assert!(download.can_count(u64::MAX));
    let step = download.advance(Event::Chunk(u64::MAX));
    assert!(step.progress.is_none());
    assert!(!download.can_count(1));
    assert!(download.can_count(0));
}

#[test]
fn bytes_are_counted_as_long_as_a_hundred_times_as_many_fit() {
    let mut download = receiving(Some(1));
    assert!(!download.can_count(u64::MAX / 100 + 1));
    assert!(download.can_count(u64::MAX / 100));
    let step = download.advance(Event::Chunk(42949673));
    assert_eq!(progress(&step).2, 4);
    assert!(!Download::begin("x").0.can_count(0));
}

#[test]
fn a_request_that_is_refused() {
    let (mut download, _) = Download::begin("114.0");
    let step = download.advance(Event::Refused(text("404 Not Found")));
    assert_eq!(
        progress(&step),
        ("114.0", "error", 0, Some("下载失败: HTTP 404 Not Found")),
    );
    assert_eq!(step.result, Some(Err(text("下载失败: HTTP 404 Not Found"))));
    assert!(!step.remove_archive && !step.remove_target);
}

#[test]
fn faults_that_are_not_told() {
    let mut begun = Download::begin("114.0").0;
    let mut answered = receiving(Some(5));
    let mut unpacking = extracting();
    for step in [
        begun.advance(Event::NotSent(text("e"))),
        answered.advance(Event::NoPlace(text("e"))),
        unpacking.advance(Event::Lost(text("e"))),
    ] {
        assert!(step.progress.is_none());
        assert_eq!(step.result, Some(Err(text("e"))));
        assert!(!step.remove_archive && !step.remove_target);
    }
}

#[test]
fn an_archive_that_breaks_off_is_removed() {
    let step = receiving(Some(5)).advance(Event::Broken(text("reset")));
    assert_eq!(progress(&step), ("114.0", "error", 0, Some("reset")));
    assert_eq!(step.result, Some(Err(text("reset"))));
    assert!(step.remove_archive && !step.remove_target);
}

#[test]
fn an_archive_that_cannot_be_unpacked_leaves_nothing_behind() {
    let step = extracting().advance(Event::NotExtracted(text("bad zip")));
    assert_eq!(progress(&step), ("114.0", "error", 0, Some("bad zip")));
    assert_eq!(step.result, Some(Err(text("bad zip"))));
    assert!(step.remove_archive && step.remove_target);
}

#[test]
fn a_download_that_begins_with_a_search() {
    let (mut download, first) = Download::begin_search("chromium-M65");
    assert_eq!(told(&first), ("chromium-M65", "downloading", 0, None));
    let step = download.advance(Event::Resolved);
    assert_eq!(progress(&step), ("chromium-M65", "downloading", 0, None));
    assert!(matches!(download.phase, Phase::Requested));

    let (mut download, _) = Download::begin_search("chromium-M65");
    let step = download.advance(Event::Unresolved(text("none")));
    assert_eq!(progress(&step), ("chromium-M65", "error", 0, Some("none")));
    assert_eq!(step.result, Some(Err(text("none"))));
    assert!(!step.remove_archive && !step.remove_target);
}

#[test]
fn the_archive_has_a_name_of_its_own() {
    assert_eq!(archive_file_name("114.0"), "chrome-114.0.zip");
}

#[test]
fn an_answer_is_taken_by_its_status() {
    for status in [200, 206, 299] {
        assert!(is_success(status));
        assert!(matches!(answer_event(status, text("x"), Some(7)), Event::Answered(Some(7))));
    }
    for status in [0, 199, 300, 404, 500, u16::MAX] {
        assert!(!is_success(status));
        match answer_event(status, text("x"), Some(7)) {
            Event::Refused(e) => assert_eq!(e, "x"),
            _ => panic!("the answer was taken"),
        }
    }
}
