//! Launching a browser: which file to run, where its data goes, and with
//! which arguments.

use vstd::prelude::*;
use vstd::string::*;

use crate::config::{find_version_dir, first_present, is_first_present};
use crate::json::{Json, JsonView};
use crate::names::{is_reserved, is_unsafe_in_path, name_fault, validate_name};
use crate::profiles::{
    args_of, law_clean_keeps_written, law_profile_set, profile_args, with_profile,
};
use crate::text::{str_eq, trimmed, views};
use crate::versions::{law_valid_version_stays_inside, valid_version, validate_version};

verus! {

/// What stands against a launch: that the version may not name a directory,
/// that the profile may not have this name, or that the version is in none of
/// the install directories. The first that applies counts.
pub open spec fn launch_fault(version: Seq<char>, profile: Seq<char>, present: Seq<bool>) -> Option<
    Seq<char>,
> {
    if !valid_version(version) {
        Some("非法版本号"@)
    } else if name_fault(profile) is Some {
        name_fault(profile)
    } else if !present.contains(true) {
        Some("未找到该版本目录"@)
    } else {
        None
    }
}

/// The install directory that `version` is launched from, for the profile
/// `profile`: the first one that has it, by `present`.
pub fn find_launch_dir(version: &str, profile: &str, present: &Vec<bool>) -> (r: Result<
    usize,
    String,
>)
    ensures
        r is Ok <==> launch_fault(version@, profile@, present@) is None,
        r matches Ok(dir) ==> is_first_present(present@, Some(dir)),
        r matches Err(e) ==> launch_fault(version@, profile@, present@) == Some(e@),
{
    match validate_version(version) {
        Ok(_) => match validate_name(profile) {
            Ok(_) => match find_version_dir(present) {
                Some(dir) => Ok(dir),
                None => Err("未找到该版本目录".to_string()),
            },
            Err(e) => Err(e),
        },
        Err(e) => Err(e),
    }
}

/// Where the file to run may lie below the directory of a version, in the
/// order in which it is looked for; each path by its parts.
pub open spec fn executable_paths() -> Seq<Seq<Seq<char>>> {
    seq![
        seq!["chrome-win64"@, "chrome.exe"@],
        seq!["chrome-win32"@, "chrome.exe"@],
        seq!["chrome-win"@, "chrome.exe"@],
        seq!["chrome.exe"@],
        seq!["chrome-linux64"@, "chrome"@],
        seq!["chrome-linux"@, "chrome"@],
        seq![
            "chrome-mac-arm64"@,
            "Google Chrome for Testing.app"@,
            "Contents"@,
            "MacOS"@,
            "Google Chrome for Testing"@,
        ],
        seq!["chrome-mac"@, "Chromium.app"@, "Contents"@, "MacOS"@, "Chromium"@],
    ]
}

/// What a list of paths holds.
pub open spec fn path_views(paths: Seq<Vec<&'static str>>) -> Seq<Seq<Seq<char>>> {
    paths.map_values(|path: Vec<&'static str>| path@.map_values(|part: &'static str| part@))
}

/// Where the file to run may lie below the directory of a version.
pub fn candidates() -> (r: Vec<Vec<&'static str>>)
    ensures
        path_views(r@) == executable_paths(),
{
    let r = vec![
        vec!["chrome-win64", "chrome.exe"],
        vec!["chrome-win32", "chrome.exe"],
        vec!["chrome-win", "chrome.exe"],
        vec!["chrome.exe"],
        vec!["chrome-linux64", "chrome"],
        vec!["chrome-linux", "chrome"],
        vec![
            "chrome-mac-arm64",
            "Google Chrome for Testing.app",
            "Contents",
            "MacOS",
            "Google Chrome for Testing",
        ],
        vec!["chrome-mac", "Chromium.app", "Contents", "MacOS", "Chromium"],
    ];
    assert(path_views(r@) =~~= executable_paths());
    r
}

/// Which of the candidates is run: the first that is there, by `exists`.
pub fn find_executable(exists: &Vec<bool>) -> (r: Result<usize, String>)
    ensures
        r is Ok <==> exists@.contains(true),
        r matches Ok(i) ==> is_first_present(exists@, Some(i)),
        r matches Err(e) ==> e@ == "未找到Chrome可执行文件"@,
{
    match first_present(exists) {
        Some(i) => Ok(i),
        None => Err("未找到Chrome可执行文件".to_string()),
    }
}

/// Where the data of a launch lies below the directory of the profiles, by
/// the parts of the path: the default profile has a directory for each
/// version, any other profile one for all versions.
pub open spec fn data_path(profile: Seq<char>, version: Seq<char>) -> Seq<Seq<char>> {
    if profile == "default"@ {
        seq!["default"@, version]
    } else {
        seq![profile]
    }
}

/// Where the data of a launch lies below the directory of the profiles.
pub fn profile_path(profile: &str, version: &str) -> (r: Vec<String>)
    ensures
        views(r@) == data_path(profile@, version@),
{
    let mut r: Vec<String> = Vec::new();
    r.push(profile.to_string());
    if str_eq(profile, "default") {
        r.push(version.to_string());
    }
    assert(views(r@) =~= data_path(profile@, version@));
    r
}

/// Data of different profiles is kept apart, and so is data of different
/// versions of the default profile: no directory is the other or lies in the
/// other. Any other profile has the same directory for all versions.
pub proof fn law_profiles_are_apart(
    profile: Seq<char>,
    version: Seq<char>,
    other_profile: Seq<char>,
    other_version: Seq<char>,
)
    requires
        name_fault(profile) is None,
        name_fault(other_profile) is None,
        valid_version(version),
        valid_version(other_version),
    ensures
        data_path(profile, version).is_prefix_of(data_path(other_profile, other_version)) <==> {
            &&& profile == other_profile
            &&& profile == "default"@ ==> version == other_version
        },
{
    let a = data_path(profile, version);
    let b = data_path(other_profile, other_version);
    if a.is_prefix_of(b) {
        assert(a[0] == b[0]);
        if profile == "default"@ {
            assert(a[1] == b[1]);
        }
    }
    if profile == other_profile && (profile == "default"@ ==> version == other_version) {
        assert(a =~= b.subrange(0, a.len() as int));
    }
}

/// The data of a launch that nothing stands against lies below the directory
/// of the profiles, as deep as its path has parts: no part is empty or has a
/// separator, and none stands for the directory itself, for the one above or
/// for a device of Windows.
pub proof fn law_data_stays_inside(profile: Seq<char>, version: Seq<char>, part: int)
    requires
        name_fault(profile) is None,
        valid_version(version),
        forall|i: int| 0 <= i < profile.len() ==> !is_unsafe_in_path(#[trigger] profile[i]),
        0 <= part < data_path(profile, version).len(),
    ensures
        data_path(profile, version)[part].len() > 0,
        forall|i: int|
            0 <= i < data_path(profile, version)[part].len() ==> {
                let c = #[trigger] data_path(profile, version)[part][i];
                c != '/' && c != '\\' && c != ':'
            },
        data_path(profile, version)[part] != "."@,
        data_path(profile, version)[part] != ".."@,
        !is_reserved(data_path(profile, version)[part]),
{
    reveal_strlit(".");
    reveal_strlit("..");
    law_valid_version_stays_inside(version);
    let p = data_path(profile, version)[part];
    if profile == "default"@ && part == 1 {
        assert(p == version);
    } else {
        assert(p == profile);
        assert(profile.len() > 0) by {
            if profile.len() == 0 {
                assert(trimmed(profile) == profile);
            }
        }
        assert(!is_unsafe_in_path(profile[0]));
        assert(is_unsafe_in_path('.'));
        assert("."@[0] == '.' && ".."@[0] == '.');
        assert forall|i: int| 0 <= i < p.len() implies {
            let c = #[trigger] p[i];
            c != '/' && c != '\\' && c != ':'
        } by {
            assert(!is_unsafe_in_path(profile[i]));
        }
    }
}

/// The argument that makes a browser keep its data in `path`.
pub open spec fn data_argument(path: Seq<char>) -> Seq<char> {
    "--user-data-dir="@ + path
}

/// The argument that makes a browser keep its data in `path`.
pub fn user_data_arg(path: &str) -> (r: String)
    ensures
        r@ == data_argument(path@),
{
    "--user-data-dir=".to_string().concat(path)
}

/// The arguments of a launch: where the data goes, then those of the profile.
pub open spec fn launch_arguments(cfg: JsonView, profile: Seq<char>, path: Seq<char>) -> Seq<
    Seq<char>,
> {
    seq![data_argument(path), "--no-first-run"@] + args_of(cfg, profile)
}

/// The arguments with which a browser is launched that keeps its data in
/// `path`.
pub fn launch_args(cfg: &Json, profile: &str, path: &str) -> (r: Vec<String>)
    ensures
        views(r@) == launch_arguments(cfg@, profile@, path@),
{
    let mut r: Vec<String> = Vec::new();
    r.push(user_data_arg(path));
    r.push("--no-first-run".to_string());
    let ghost first = r@;
    let mut rest = profile_args(cfg, profile);
    let ghost more = rest@;
    r.append(&mut rest);
    assert(r@ =~= first + more);
    assert(views(r@) =~= views(first) + views(more));
    assert(views(first) =~= seq![data_argument(path@), "--no-first-run"@]);
    r
}

/// Whether a process with these arguments keeps its data in `path`: one of
/// them says so, to the letter.
pub open spec fn keeps_data_in(arguments: Seq<Seq<char>>, path: Seq<char>) -> bool {
    arguments.contains(data_argument(path))
}

/// Whether a process with these arguments keeps its data in `path`.
pub fn uses_profile(arguments: &[String], path: &str) -> (r: bool)
    ensures
        r == keeps_data_in(views(arguments@), path@),
{
    let wanted = user_data_arg(path);
    let mut i: usize = 0;
    while i < arguments.len()
        invariant
            i <= arguments@.len(),
            wanted@ == data_argument(path@),
            forall|j: int| 0 <= j < i ==> views(arguments@)[j] != wanted@,
        decreases arguments.len() - i,
    {
        assert(views(arguments@)[i as int] == arguments@[i as int]@);
        if str_eq(arguments[i].as_str(), wanted.as_str()) {
            return true;
        }
        i += 1;
    }
    false
}

/// A browser that was launched is found again by the directory of its data,
/// and by no other directory unless an argument of its profile names one.
pub proof fn law_launched_is_found(
    cfg: JsonView,
    profile: Seq<char>,
    path: Seq<char>,
    other: Seq<char>,
)
    ensures
        keeps_data_in(launch_arguments(cfg, profile, path), path),
        keeps_data_in(launch_arguments(cfg, profile, path), other) <==> other == path || args_of(
            cfg,
            profile,
        ).contains(data_argument(other)),
{
    let all = launch_arguments(cfg, profile, path);
    let own = args_of(cfg, profile);
    let wanted = data_argument(other);
    assert(all[0] == data_argument(path));
    if own.contains(wanted) {
        let i = choose|i: int| 0 <= i < own.len() && own[i] == wanted;
        assert(all[i + 2] == wanted);
    }
    if all.contains(wanted) {
        let i = choose|i: int| 0 <= i < all.len() && all[i] == wanted;
        if i == 0 {
            let flag = "--user-data-dir="@;
            assert(other =~= wanted.skip(flag.len() as int));
            assert(path =~= data_argument(path).skip(flag.len() as int));
        } else if i == 1 {
            reveal_strlit("--user-data-dir=");
            reveal_strlit("--no-first-run");
            assert(wanted[2] == 'u');
            assert(all[1][2] == 'n');
        } else {
            assert(own[i - 2] == wanted);
        }
    }
}

/// A launch carries the directory of its data, the argument that skips the
/// first run, and then every argument that is saved for the profile, in their
/// order, whichever profile it is.
pub proof fn law_launch_carries_saved_arguments(cfg: JsonView, profile: Seq<char>, path: Seq<char>)
    ensures
        launch_arguments(cfg, profile, path).len() == 2 + args_of(cfg, profile).len(),
        launch_arguments(cfg, profile, path)[0] == "--user-data-dir="@ + path,
        launch_arguments(cfg, profile, path)[1] == "--no-first-run"@,
        forall|i: int|
            0 <= i < args_of(cfg, profile).len() ==> launch_arguments(cfg, profile, path)[i + 2]
                == #[trigger] args_of(cfg, profile)[i],
{
}

/// After the arguments of a profile have been set, a launch with it carries
/// each of them that is not blank, trimmed, as far as a profile can have so
/// many; a launch with another profile is as before.
pub proof fn law_launch_after_profile_set(
    cfg: JsonView,
    name: Seq<char>,
    args: Seq<Seq<char>>,
    other: Seq<char>,
    path: Seq<char>,
)
    requires
        cfg is Object,
        args.len() <= 50,
        forall|i: int|
            0 <= i < args.len() ==> trimmed(#[trigger] args[i]) == args[i] && args[i].len() > 0,
    ensures
        launch_arguments(with_profile(cfg, name, args), name, path) == seq![
            "--user-data-dir="@ + path,
            "--no-first-run"@,
        ] + args,
        other != name ==> launch_arguments(with_profile(cfg, name, args), other, path)
            == launch_arguments(cfg, other, path),
{
    law_profile_set(cfg, name, args);
    law_clean_keeps_written(args);
    assert(other != name ==> args_of(with_profile(cfg, name, args), other) == args_of(cfg, other));
}

/// A process keeps its data in a directory exactly where one of its arguments
/// says so, wherever it stands among them.
pub proof fn law_any_argument_counts(
    before: Seq<Seq<char>>,
    argument: Seq<char>,
    after: Seq<Seq<char>>,
    path: Seq<char>,
)
    ensures
        keeps_data_in(before + seq![argument] + after, path) <==> argument == "--user-data-dir="@
            + path || keeps_data_in(before, path) || keeps_data_in(after, path),
        !keeps_data_in(Seq::empty(), path),
{
    let all = before + seq![argument] + after;
    let wanted = data_argument(path);
    assert(all[before.len() as int] == argument);
    if before.contains(wanted) {
        let i = choose|i: int| 0 <= i < before.len() && before[i] == wanted;
        assert(all[i] == wanted);
    }
    if after.contains(wanted) {
        let i = choose|i: int| 0 <= i < after.len() && after[i] == wanted;
        assert(all[i + before.len() + 1] == wanted);
    }
    if all.contains(wanted) && argument != wanted {
        let i = choose|i: int| 0 <= i < all.len() && all[i] == wanted;
        if i < before.len() {
            assert(before[i] == wanted);
        } else {
            assert(after[i - before.len() - 1] == wanted);
        }
    }
}

/// The data of the default profile lies in a directory of the version, that of
/// any other profile in one of its own.
pub proof fn law_data_paths(profile: Seq<char>, version: Seq<char>)
    ensures
        data_path("default"@, version).len() == 2,
        data_path("default"@, version)[0] == "default"@,
        data_path("default"@, version)[1] == version,
        profile != "default"@ ==> data_path(profile, version).len() == 1,
        profile != "default"@ ==> data_path(profile, version)[0] == profile,
{
}

/// Nothing stands against the launch of a valid version that some install
/// directory has, with a profile whose name has no fault; and something does
/// against any other.
pub proof fn law_what_can_be_launched(
    version: Seq<char>,
    profile: Seq<char>,
    present: Seq<bool>,
    i: int,
)
    ensures
        valid_version(version) && name_fault(profile) is None && 0 <= i < present.len()
            && present[i] ==> launch_fault(version, profile, present) is None,
        !valid_version(version) ==> launch_fault(version, profile, present) is Some,
        name_fault(profile) is Some ==> launch_fault(version, profile, present) is Some,
        (forall|k: int| 0 <= k < present.len() ==> !#[trigger] present[k]) ==> launch_fault(
            version,
            profile,
            present,
        ) is Some,
{
    if 0 <= i < present.len() && present[i] {
        assert(present.contains(true));
    }
}

/// What is said where the browser could not be started.
pub fn start_fault(cause: &str) -> (r: String)
    ensures
        r@ == "启动失败: "@ + cause@,
{
    "启动失败: ".to_string().concat(cause)
}

} // verus!
