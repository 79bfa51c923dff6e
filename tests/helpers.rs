use oxipodder::downloader::{temp_download_path, url_parses, DownloadProgress, DownloadQueueElement};
use oxipodder::helpers::{sanitize_filename, trim_white_space};

fn item(id: u32, url: &str, location: &str) -> DownloadQueueElement {
    DownloadQueueElement {
        name: format!("item {id}"),
        id,
        url: url.to_string(),
        location: location.to_string(),
        pub_date: 1_700_000_000,
    }
}

#[test]
fn sanitize_replaces_reserved_characters() {
    assert_eq!(sanitize_filename("a/b\\c:d*e?f\"g<h>i|j"), "a_b_c_d_e_f_g_h_i_j");
}

#[test]
fn sanitize_replaces_control_characters() {
    assert_eq!(sanitize_filename("x\u{7}y\u{7f}z\u{9f}"), "x_y_z_");
}

#[test]
fn sanitize_trims_white_space() {
    assert_eq!(sanitize_filename("  Episode 1: Pilot \u{a0}"), "Episode 1_ Pilot");
}

#[test]
fn sanitize_keeps_inner_white_space_and_unicode() {
    assert_eq!(sanitize_filename("Café  Società"), "Café  Società");
}

#[test]
fn sanitize_tab_becomes_underscore_not_trimmed() {
    // a tab is a control code, so it is replaced before trimming
    assert_eq!(sanitize_filename("\tTitle\n"), "_Title_");
}

#[test]
fn sanitize_empty_and_blank() {
    assert_eq!(sanitize_filename(""), "");
    assert_eq!(sanitize_filename("   "), "");
}

#[test]
fn trim_removes_unicode_white_space() {
    assert_eq!(trim_white_space("\u{3000} a b \u{2003}"), "a b");
    assert_eq!(trim_white_space("x"), "x");
}

#[test]
fn temp_paths_follow_identity() {
    assert_eq!(temp_download_path(0), "/tmp/oxi_0");
    assert_eq!(temp_download_path(12), "/tmp/oxi_12");
    assert_eq!(temp_download_path(4294967295), "/tmp/oxi_4294967295");
}

#[test]
fn temp_paths_are_distinct_per_identity() {
    let paths: Vec<String> = (0u32..200).map(temp_download_path).collect();
    for i in 0..paths.len() {
        for j in (i + 1)..paths.len() {
            assert_ne!(paths[i], paths[j]);
        }
    }
}

#[test]
fn native_format_from_url_path() {
    assert!(item(0, "https://example.com/ep/1.mp3", "/x/1.mp3").is_native());
    assert!(!item(0, "https://example.com/ep/1.m4a", "/x/1.mp3").is_native());
}

#[test]
fn native_format_ignores_query() {
    // the query is not part of the path
    assert!(!item(0, "https://example.com/ep/1.m4a?f=mp3", "/x/1.mp3").is_native());
    assert!(item(0, "https://example.com/ep/1.mp3?token=abc", "/x/1.mp3").is_native());
}

#[test]
fn unparseable_url_is_not_native() {
    assert!(!item(0, "not a url mp3", "/x/1.mp3").is_native());
    assert!(!url_parses("not a url mp3"));
    assert!(url_parses("https://example.com/feed.xml"));
}

#[test]
fn download_path_native_goes_to_location() {
    let e = item(3, "https://example.com/a.mp3", "/pods/show/a.mp3");
    assert_eq!(e.download_path(), "/pods/show/a.mp3");
}

#[test]
fn download_path_converting_goes_to_temp() {
    let e = item(7, "https://example.com/a.ogg", "/pods/show/a.mp3");
    assert_eq!(e.download_path(), "/tmp/oxi_7");
}

#[test]
fn progress_new_keeps_fields() {
    let p = DownloadProgress::new(4, 1000, 250);
    assert_eq!(p.id, 4);
    assert_eq!(p.total_size, 1000);
    assert_eq!(p.completed, 250);
}

#[test]
fn progress_percent() {
    assert_eq!(DownloadProgress::new(0, 1000, 250).percent(), Some(25));
    assert_eq!(DownloadProgress::new(0, 3, 2).percent(), Some(66));
    assert_eq!(DownloadProgress::new(0, 0, 10).percent(), None);
    assert_eq!(DownloadProgress::new(0, 1, u64::MAX).percent(), Some(u64::MAX));
}

#[test]
fn trim_agrees_with_std_on_every_character() {
    for code in 0u32..0x3100 {
        if let Some(c) = char::from_u32(code) {
            let s = format!("{c}a{c}");
            assert_eq!(trim_white_space(&s), s.trim(), "U+{code:04X}");
        }
    }
}

#[test]
fn sanitize_agrees_with_std_control_test() {
    for code in 0u32..0x3100 {
        if let Some(c) = char::from_u32(code) {
            let s = format!("a{c}b");
            let expected = if "/\\:*?\"<>|".contains(c) || c.is_control() { '_' } else { c };
            let expected = format!("a{expected}b");
            assert_eq!(sanitize_filename(&s), expected.trim(), "U+{code:04X}");
        }
    }
}
