use mmv::filepath::windows;
use mmv::{clean, from_slash, is_path_separator, os_separator, volume_name_len};

#[test]
fn test_clean() {
    let path_strs = [
        // Already clean
        ("abc", "abc"),
        ("abc/def", "abc/def"),
        ("a/b/c", "a/b/c"),
        (".", "."),
        ("..", ".."),
        ("../..", "../.."),
        ("../../abc", "../../abc"),
        ("/abc", "/abc"),
        ("/", "/"),
        // Empty is current dir
        ("", "."),
        // Remove trailing slash
        ("abc/", "abc"),
        ("abc/def/", "abc/def"),
        ("a/b/c/", "a/b/c"),
        ("./", "."),
        ("../", ".."),
        ("../../", "../.."),
        ("/abc/", "/abc"),
        // Remove doubled slash
        ("abc//def//ghi", "abc/def/ghi"),
        ("//abc", "/abc"),
        ("///abc", "/abc"),
        ("//abc//", "/abc"),
        ("abc//", "abc"),
        // Remove . elements
        ("abc/./def", "abc/def"),
        ("/./abc/def", "/abc/def"),
        ("abc/.", "abc"),
        // Remove..elements
        ("abc/def/ghi/../jkl", "abc/def/jkl"),
        ("abc/def/../ghi/../jkl", "abc/jkl"),
        ("abc/def/..", "abc"),
        ("abc/def/../..", "."),
        ("/abc/def/../..", "/"),
        ("abc/def/../../..", ".."),
        ("/abc/def/../../..", "/"),
        ("abc/def/../../../ghi/jkl/../../../mno", "../../mno"),
        ("/../abc", "/abc"),
        // Combinations
        ("abc/./../def", "def"),
        ("abc//./../def", "def"),
        ("abc/../../././../def", "../../def"),
    ];

    for (path_str, expected_output) in path_strs.iter() {
        assert_eq!(clean(path_str), *expected_output);
    }
}

#[test]
fn test_from_slash() {
    let str_path = "/test_dir/file.index.html";
    let final_path = from_slash(str_path);
    assert_eq!(str_path, final_path);
}

#[test]
fn test_volume_name_len() {
    let paths = [
        // non utf-8
        ("\\\\ふー\\バー", 7),
        // volumes
        ("C:", 2),
        // UNC cases
        ("\\\\teela\\", 0),
        ("\\\\teela\\admin\\folder", 13),
        ("\\\\?\\REL\\..\\\\..", 7),
        ("\\\\first\\next", 12),
        ("\\\\dir\\file.txt", 14),
        ("\\\\some.dir\\file", 15),
        // No volume cases
        (".\\temp.txt", 0),
        ("..\\Publications\\TravelBrochure.pdf", 0),
        ("\\\\\\", 0),
        ("\\\\.", 0),
        ("\\abc\\", 0),
    ];

    for (path, expected_len) in paths.iter() {
        assert_eq!(windows::volume_name_len(path), *expected_len as usize);
    }
}

#[test]
fn clean_is_idempotent_on_samples() {
    let samples = [
        "",
        ".",
        "..",
        "abc//def//ghi",
        "abc/./def",
        "/abc/def/../..",
        "../..",
        "abc/def/../../../ghi/jkl/../../../mno",
        "/../abc",
        "a/b/c/",
        "///abc",
    ];
    for p in samples.iter() {
        let once = clean(p);
        let twice = clean(&once);
        assert_eq!(once, twice);
    }
}

#[test]
fn platform_separator_is_slash() {
    assert_eq!(os_separator(), '/');
    assert!(is_path_separator('/'));
    assert!(!is_path_separator('\\'));
    assert!(windows::is_path_separator('\\'));
    assert!(!windows::is_path_separator('/'));
}

#[test]
fn no_volume_on_this_platform() {
    assert_eq!(volume_name_len("C:"), 0);
    assert_eq!(volume_name_len("/abc"), 0);
}
