use chrometester::platform::{current_platform, snapshot_platform};

#[test]
fn platforms_of_chrome_for_testing() {
    assert_eq!(current_platform("windows", "x86_64"), "win64");
    assert_eq!(current_platform("windows", "x86"), "win32");
    assert_eq!(current_platform("windows", "aarch64"), "win32");
    assert_eq!(current_platform("macos", "aarch64"), "mac-arm64");
    assert_eq!(current_platform("macos", "x86_64"), "mac-x64");
    assert_eq!(current_platform("linux", "x86_64"), "linux64");
    assert_eq!(current_platform("freebsd", "riscv64"), "linux64");
}

#[test]
fn directories_of_the_snapshot_bucket() {
    assert_eq!(snapshot_platform("windows", "x86_64"), "Win_x64");
    assert_eq!(snapshot_platform("windows", "x86"), "Win");
    assert_eq!(snapshot_platform("macos", "aarch64"), "Mac_Arm");
    assert_eq!(snapshot_platform("macos", "x86_64"), "Mac");
    assert_eq!(snapshot_platform("linux", "aarch64"), "Linux_x64");
}
