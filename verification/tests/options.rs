use dexdumper::cli::{
    choose_uid, output_subdir, parse_art_layout, parse_u32, parse_u64, UidChoice, ValueError,
};
use dexdumper::platform::{
    is_system_dex_path, oat_dirs, parse_cmd_package_list_for_pkg, parse_cmd_package_list_for_uid,
    parse_dumpsys_user_id, parse_packages_list_for_pkg, parse_packages_list_for_uid,
    parse_pm_paths, sanitize_path_component, shell_command, PackageQuery, PackagesLookup, UidLookup,
};
use dexdumper::sort::sort_pairs;
use dexdumper::text::{
    chars_of, contains, fields, find_text, join_from, lines, parse_number, push_dec, push_hex,
    string_of, trim, words, NumError,
};

#[test]
fn parses_package_list_uid() {
    let data = "com.example.app 10244 0 /data/user/0/com.example.app\n";
    assert_eq!(
        parse_packages_list_for_pkg(data, "com.example.app"),
        Some(10244)
    );
    assert_eq!(
        parse_packages_list_for_uid(data, 10244),
        vec!["com.example.app"]
    );
}

#[test]
fn parses_cmd_package_output() {
    let data = "package:com.example.one uid:10001\npackage:com.example.two uid:10002\n";
    assert_eq!(
        parse_cmd_package_list_for_pkg(data, "com.example.two"),
        Some(10002)
    );
    assert_eq!(
        parse_cmd_package_list_for_uid(data, 10001),
        vec!["com.example.one"]
    );
}

#[test]
fn parses_dumpsys_user_id() {
    assert_eq!(parse_dumpsys_user_id("  userId=10342\n"), Some(10342));
    assert_eq!(parse_dumpsys_user_id("missing"), None);
}

#[test]
fn lists_are_read_line_by_line() {
    let data = "# comment\n\n  a.b nine 0\na.b 10 0\n#a.b 11 0\nc.d 10\nlonely\n";
    // A line without a number does not count.
    assert_eq!(parse_packages_list_for_pkg(data, "a.b"), Some(10));
    assert_eq!(parse_packages_list_for_pkg(data, "lonely"), None);
    assert_eq!(parse_packages_list_for_uid(data, 10), vec!["a.b", "c.d"]);
    assert!(parse_packages_list_for_uid(data, 11).is_empty());

    let data = "uid:5 package:a\npackage:a\n package:a uid:x\npackage:a uid:6,7\npackage:a uid:8\n";
    assert_eq!(parse_cmd_package_list_for_pkg(data, "a"), Some(8));
    assert_eq!(parse_cmd_package_list_for_uid(data, 8), vec!["a"]);
    assert!(parse_cmd_package_list_for_uid(data, 5).is_empty());
}

#[test]
fn numbers_behind_user_id_must_fit() {
    assert_eq!(parse_dumpsys_user_id("userId="), None);
    assert_eq!(parse_dumpsys_user_id("userId=x1"), None);
    assert_eq!(parse_dumpsys_user_id("userId=99999999999"), None);
    assert_eq!(parse_dumpsys_user_id("é userId=7 userId=8"), Some(7));
}

#[test]
fn paths_follow_the_package_mark() {
    let output = "package:/data/app/base.apk\r\n  package:/data/app/split.apk  \npackage:\nerror\n";
    assert_eq!(
        parse_pm_paths(output),
        vec!["/data/app/base.apk", "/data/app/split.apk"]
    );
    assert!(parse_pm_paths("").is_empty());
}

#[test]
fn the_user_is_looked_up_in_turn() {
    let mut lookup = UidLookup::new("a.b");
    assert_eq!(lookup.query, Some(PackageQuery::PackagesList));
    lookup.supply(None);
    assert_eq!(lookup.query, Some(PackageQuery::ListPackages));
    lookup.supply(Some("package:c.d uid:1\n"));
    assert_eq!(lookup.query, Some(PackageQuery::DumpPackage));
    lookup.supply(Some("    userId=10042\n"));
    assert_eq!((lookup.query, lookup.uid), (None, Some(10042)));

    let mut first = UidLookup::new("a.b");
    first.supply(Some("a.b 7 0\n"));
    assert_eq!((first.query, first.uid), (None, Some(7)));

    let mut none = UidLookup::new("a.b");
    none.supply(None);
    none.supply(None);
    none.supply(Some("nothing"));
    assert_eq!((none.query, none.uid), (None, None));
}

#[test]
fn packages_are_looked_up_in_turn() {
    let mut lookup = PackagesLookup::new(7);
    lookup.supply(Some("a.b 8 0\n"));
    assert_eq!(lookup.query, Some(PackageQuery::ListPackages));
    lookup.supply(Some("package:c.d uid:7\npackage:e.f uid:7\n"));
    assert_eq!(lookup.query, None);
    assert_eq!(lookup.packages, vec!["c.d", "e.f"]);

    let mut first = PackagesLookup::new(8);
    first.supply(Some("a.b 8 0\n"));
    assert_eq!((first.query, first.packages), (None, vec!["a.b".to_string()]));

    let mut none = PackagesLookup::new(9);
    none.supply(None);
    none.supply(None);
    assert_eq!((none.query, none.packages), (None, vec![]));
}

#[test]
fn questions_have_commands() {
    assert_eq!(shell_command(PackageQuery::PackagesList, "a.b"), None);
    assert_eq!(
        shell_command(PackageQuery::ListPackages, "a.b").as_deref(),
        Some("cmd package list packages -U")
    );
    assert_eq!(
        shell_command(PackageQuery::DumpPackage, "a.b").as_deref(),
        Some("dumpsys package a.b | grep -m1 userId=")
    );
}

#[test]
fn option_numbers_have_two_bases() {
    assert_eq!(parse_u64("0x1f"), Ok(31));
    assert_eq!(parse_u64("0X1F"), Ok(31));
    assert_eq!(parse_u64("31"), Ok(31));
    assert_eq!(parse_u64("+31"), Ok(31));
    assert_eq!(parse_u64("18446744073709551615"), Ok(u64::MAX));
    let error = |s: &str| parse_u64(s).unwrap_err().message();
    assert_eq!(error(""), "cannot parse integer from empty string");
    assert_eq!(error("0x"), "cannot parse integer from empty string");
    assert_eq!(error("12a"), "invalid digit found in string");
    assert_eq!(error("-1"), "invalid digit found in string");
    assert_eq!(error("+"), "invalid digit found in string");
    assert_eq!(error("18446744073709551616"), "number too large to fit in target type");
    assert_eq!(error("99999999999999999999x"), "number too large to fit in target type");
    assert_eq!(parse_u32("0xffffffff"), Ok(u32::MAX));
    assert_eq!(
        parse_u32("0x100000000"),
        Err(ValueError::TooLarge { value: "0x100000000".to_string() })
    );
    assert_eq!(parse_u32("0x100000000").unwrap_err().message(), "0x100000000 is larger than u32");
}

#[test]
fn layouts_have_ten_offsets() {
    let layout = parse_art_layout("8, 0,8,0x10,16,0x10,8,0x20,12, 0x10").unwrap();
    assert_eq!(layout, dexdumper::art::ArtRuntimeLayout::android_13_plus_default());
    assert_eq!(parse_art_layout("1,2,3"), Err(ValueError::OffsetCount { got: 3 }));
    assert_eq!(
        parse_art_layout("1,2,3").unwrap_err().message(),
        "expected 10 comma-separated offsets, got 3"
    );
    // A field that is no number counts before their number.
    assert_eq!(
        parse_art_layout("1,,3"),
        Err(ValueError::Number(NumError::Empty))
    );
    let order = parse_art_layout("1,2,3,4,5,6,7,8,9,10").unwrap();
    assert_eq!((order.shadow_frame_method_offset, order.code_item_insns_offset), (1, 10));
}

#[test]
fn the_user_id_is_chosen() {
    assert_eq!(choose_uid(Some(5), true), UidChoice::Given(5));
    assert_eq!(choose_uid(Some(0), true), UidChoice::FromName);
    assert_eq!(choose_uid(None, true), UidChoice::FromName);
    assert_eq!(choose_uid(Some(0), false), UidChoice::Missing);
}

#[test]
fn the_output_directory_is_named() {
    let text = |s: &str| Some(s.to_string());
    assert_eq!(output_subdir(text("a.b"), Some(7), text("c"), 9), "a.b");
    assert_eq!(output_subdir(None, Some(7), text("c"), 9), "c");
    assert_eq!(output_subdir(None, Some(7), text("c:d/e"), 9), "c_d_e");
    assert_eq!(output_subdir(None, Some(7), None, 9), "pid_7");
    assert_eq!(output_subdir(None, None, None, 10123), "uid_10123");
}

fn split(parts: Vec<Vec<char>>) -> Vec<String> {
    parts.iter().map(|p| string_of(p)).collect()
}

#[test]
fn text_is_split_like_the_standard_library_does() {
    for s in ["", "a", " a  b\t\u{3000}c ", "a\nb\r\nc\r", "\n", "\r\n\r\n", "a,b,,", ",", "x\u{85}y"] {
        let chars = chars_of(s);
        assert_eq!(split(words(&chars)), s.split_whitespace().collect::<Vec<_>>());
        assert_eq!(split(lines(&chars)), s.lines().collect::<Vec<_>>());
        assert_eq!(split(fields(&chars, ',')), s.split(',').collect::<Vec<_>>());
        assert_eq!(string_of(&trim(&chars)), s.trim());
    }
    let parts = words(&chars_of("a b  c"));
    assert_eq!(join_from(&parts, 1), "b c");
    assert_eq!(join_from(&parts, 3), "");
}

#[test]
fn white_space_is_that_of_the_standard_library() {
    for v in 0..=0x10_ffffu32 {
        if let Some(c) = char::from_u32(v) {
            assert_eq!(dexdumper::text::white_space(c), c.is_whitespace());
        }
    }
}

#[test]
fn numbers_are_written_and_read() {
    let mut s = String::new();
    push_hex(&mut s, 0);
    push_hex(&mut s, u64::MAX);
    push_dec(&mut s, 10);
    push_dec(&mut s, u64::MAX);
    assert_eq!(s, "0ffffffffffffffff1018446744073709551615");
    assert_eq!(parse_number(&chars_of("Ff"), 16, 255), Ok(255));
    assert_eq!(parse_number(&chars_of("100"), 16, 255), Err(NumError::Overflow));
    assert_eq!(parse_number(&chars_of("g"), 16, 255), Err(NumError::InvalidDigit));
}

#[test]
fn text_is_searched() {
    assert_eq!(find_text(&chars_of("aaaab"), &chars_of("aab")), Some(2));
    assert!(contains(&chars_of("abc"), &chars_of("")));
    assert!(!contains(&chars_of("ab"), &chars_of("abc")));
}

#[test]
fn pairs_are_sorted() {
    let pairs = vec![(2, 1), (1, 9), (2, 0), (1, 9)];
    assert_eq!(sort_pairs(&pairs), vec![(1, 9), (1, 9), (2, 0), (2, 1)]);
    assert!(sort_pairs(&vec![]).is_empty());
}

#[test]
fn system_files_are_told_by_their_root() {
    for path in ["/system/a", "/system_ext/a", "/product/a", "/vendor/a", "/odm/a", "/apex/a"] {
        assert!(is_system_dex_path(path));
    }
    for path in ["", "/data/app/base.apk", "/system", "/systemx/a", "system/a", "/data/system/a"] {
        assert!(!is_system_dex_path(path));
    }
}

#[test]
fn names_are_made_fit_for_a_directory() {
    assert_eq!(sanitize_path_component("com.example_app-1"), "com.example_app-1");
    assert_eq!(sanitize_path_component("a/b:c d\u{e9}Z9"), "a_b_c_d_Z9");
    assert_eq!(sanitize_path_component(""), "");
}

#[test]
fn directories_with_compiled_code_lie_next_to_the_files() {
    let dirs = |paths: &[&str]| oat_dirs(&paths.iter().map(|p| p.to_string()).collect());
    assert_eq!(
        dirs(&["/data/app/x/base.apk", "/data/app/x/split.apk", "/data/app/y/base.apk"]),
        vec!["/data/app/x/oat", "/data/app/y/oat"]
    );
    assert!(dirs(&["/base.apk", "/", "", "//base.apk", "/./base.apk"]).is_empty());
    // One directory, however it is written.
    assert_eq!(dirs(&["/a//b/c", "/a/./b/d", "/a/b/e/", "/a/b"]), vec!["/a/b/oat", "/a/oat"]);
    // Each path leads where the standard library's does.
    for path in ["/a/b/c", "a/b", "a", "./a", "..", ".", "../a", "/a/b/../c", "a/./b/.", "/a//b//"] {
        let parent = std::path::Path::new(path).parent().unwrap();
        let dir = dirs(&[path]);
        assert_eq!(std::path::Path::new(&dir[0]), parent.join("oat"));
    }
}
