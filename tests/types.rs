use oxipodder::types::{Enclosure, Episode, OutlineError, Podcast};

fn episode(guid: &str, title: &str, pub_date: i64) -> Episode {
    Episode {
        guid: guid.to_string(),
        title: title.to_string(),
        enclosure: Enclosure {
            url: format!("https://example.com/{guid}.mp3"),
            length: 100,
            mime_type: "audio/mpeg".to_string(),
        },
        pub_date,
        downloaded_on_last_sync: false,
        listened_to: false,
    }
}

fn podcast(episodes: Vec<Episode>) -> Podcast {
    Podcast {
        title: "Show: The <Best>".to_string(),
        description: None,
        xml_url: "https://example.com/feed.xml".to_string(),
        html_url: None,
        auto_download_limit: Some(5),
        episodes,
        last_refreshed: 0,
    }
}

#[test]
fn episode_filename_is_sanitized_with_extension() {
    assert_eq!(episode("g", " Part 1/2? ", 0).filename(), "Part 1_2_.mp3");
}

#[test]
fn podcast_filename_is_sanitized_title() {
    assert_eq!(podcast(vec![]).filename(), "Show_ The _Best_");
}

#[test]
fn reconcile_marks_deleted_download_as_listened() {
    let mut e = episode("g", "t", 0);
    e.downloaded_on_last_sync = true;
    e.reconcile_with_disk(false);
    assert!(!e.downloaded_on_last_sync);
    assert!(e.listened_to);
}

#[test]
fn reconcile_keeps_present_or_never_downloaded() {
    let mut e = episode("g", "t", 0);
    e.downloaded_on_last_sync = true;
    e.reconcile_with_disk(true);
    assert!(e.downloaded_on_last_sync && !e.listened_to);
    let mut f = episode("h", "t", 0);
    f.reconcile_with_disk(false);
    assert!(!f.downloaded_on_last_sync && !f.listened_to);
}

#[test]
fn add_episode_skips_known_guid() {
    let mut p = podcast(vec![episode("a", "first", 1)]);
    assert!(!p.add_episode(episode("a", "again", 2)));
    assert_eq!(p.episodes.len(), 1);
    assert_eq!(p.episodes[0].title, "first");
    assert!(p.add_episode(episode("b", "second", 2)));
    assert_eq!(p.episodes.len(), 2);
}

#[test]
fn merge_feed_adds_new_and_sorts_oldest_first() {
    let mut p = podcast(vec![episode("b", "two", 20), episode("a", "one", 10)]);
    p.merge_feed(vec![episode("c", "three", 30), episode("a", "dup", 99), episode("z", "zero", 5)], 1234);
    let guids: Vec<&str> = p.episodes.iter().map(|e| e.guid.as_str()).collect();
    assert_eq!(guids, vec!["z", "a", "b", "c"]);
    assert_eq!(p.episodes[1].title, "one");
    assert_eq!(p.last_refreshed, 1234);
}

#[test]
fn download_candidates_newest_first_limited_and_filtered() {
    let mut old = episode("o", "old", 1);
    old.listened_to = false;
    let mut listened = episode("l", "listened", 3);
    listened.listened_to = true;
    let mut got = episode("d", "downloaded", 4);
    got.downloaded_on_last_sync = true;
    let mut p = podcast(vec![old, episode("n", "new", 5), listened, got, episode("m", "mid", 2)]);
    let r = p.download_candidates(4);
    let guids: Vec<&str> = p.episodes.iter().map(|e| e.guid.as_str()).collect();
    assert_eq!(guids, vec!["n", "d", "l", "m", "o"]);
    assert_eq!(r, vec![0, 3]);
}

#[test]
fn download_candidates_zero_count() {
    let mut p = podcast(vec![episode("a", "a", 1)]);
    assert!(p.download_candidates(0).is_empty());
    let mut empty = podcast(vec![]);
    assert!(empty.download_candidates(5).is_empty());
}

#[test]
fn outline_requires_title_and_feed() {
    let r = Podcast::from_outline(None, None, Some("https://x.org/f".to_string()), None, 0);
    assert_eq!(r, Err(OutlineError::MissingTitle));
    let r = Podcast::from_outline(Some("t".to_string()), None, None, None, 0);
    assert_eq!(r, Err(OutlineError::MissingRssUrl));
    let r = Podcast::from_outline(Some("t".to_string()), None, Some("no url".to_string()), None, 0);
    assert_eq!(r, Err(OutlineError::InvalidRssUrl));
}

#[test]
fn outline_builds_podcast() {
    let p = Podcast::from_outline(
        Some("Show".to_string()),
        Some("About".to_string()),
        Some("https://x.org/feed".to_string()),
        Some("::bad".to_string()),
        77,
    )
    .unwrap();
    assert_eq!(p.title, "Show");
    assert_eq!(p.description, Some("About".to_string()));
    assert_eq!(p.xml_url, "https://x.org/feed");
    assert_eq!(p.html_url, None);
    assert_eq!(p.auto_download_limit, Some(5));
    assert!(p.episodes.is_empty());
    assert_eq!(p.last_refreshed, 77);
    let q = Podcast::from_outline(
        Some("Show".to_string()),
        None,
        Some("https://x.org/feed".to_string()),
        Some("https://x.org/".to_string()),
        0,
    )
    .unwrap();
    assert_eq!(q.html_url, Some("https://x.org/".to_string()));
}

#[test]
fn download_candidates_keep_feed_order_for_equal_dates() {
    let mut p = podcast(vec![
        episode("a", "a", 0),
        episode("b", "b", 0),
        episode("c", "c", 7),
        episode("d", "d", 0),
    ]);
    let r = p.download_candidates(3);
    let guids: Vec<&str> = p.episodes.iter().map(|e| e.guid.as_str()).collect();
    assert_eq!(guids, vec!["c", "a", "b", "d"]);
    assert_eq!(r, vec![0, 1, 2]);
}

#[test]
fn merge_feed_keeps_order_of_equal_dates() {
    let mut p = podcast(vec![episode("x", "x", 3), episode("y", "y", 3)]);
    p.merge_feed(vec![episode("z", "z", 3), episode("w", "w", 1), episode("y", "again", 3)], 9);
    let guids: Vec<&str> = p.episodes.iter().map(|e| e.guid.as_str()).collect();
    assert_eq!(guids, vec!["w", "x", "y", "z"]);
    assert_eq!(p.episodes[2].title, "y");
}

#[test]
fn merge_feed_does_not_repeat_guids_within_one_feed() {
    let mut p = podcast(vec![]);
    p.merge_feed(vec![episode("a", "first", 1), episode("a", "second", 2)], 0);
    assert_eq!(p.episodes.len(), 1);
    assert_eq!(p.episodes[0].title, "first");
}

#[test]
fn feed_item_fields() {
    let e = Episode::from_feed_item(
        Some("g1".to_string()),
        Some("Title".to_string()),
        "https://x.org/1.mp3".to_string(),
        "12345",
        "audio/mpeg".to_string(),
        Some("Tue, 1 Jul 2003 10:52:37 +0200".to_string()),
    );
    assert_eq!(e.guid, "g1");
    assert_eq!(e.title, "Title");
    assert_eq!(e.enclosure.url, "https://x.org/1.mp3");
    assert_eq!(e.enclosure.length, 12345);
    assert_eq!(e.enclosure.mime_type, "audio/mpeg");
    assert_eq!(e.pub_date, 1057049557);
    assert!(!e.downloaded_on_last_sync && !e.listened_to);
}

#[test]
fn feed_item_defaults() {
    let e = Episode::from_feed_item(None, None, String::new(), "12 MB", String::new(), Some("yesterday".to_string()));
    assert_eq!(e.guid, "");
    assert_eq!(e.title, "");
    assert_eq!(e.enclosure.length, 0);
    assert_eq!(e.pub_date, 0);
    let f = Episode::from_feed_item(None, None, String::new(), "-7", String::new(), None);
    assert_eq!(f.enclosure.length, -7);
    assert_eq!(f.pub_date, 0);
    let g = Episode::from_feed_item(None, None, String::new(), "99999999999", String::new(), None);
    assert_eq!(g.enclosure.length, 0);
}

#[test]
fn plan_downloads_marks_present_and_numbers_the_rest() {
    let mut p = podcast(vec![episode("a", "A", 3), episode("b", "B", 2), episode("c", "C", 1)]);
    let items = p.plan_downloads(
        &vec![0, 1, 2],
        &vec![false, true, false],
        &vec!["/d/A.mp3".to_string(), "/d/B.mp3".to_string(), "/d/C.mp3".to_string()],
        5,
    );
    assert_eq!(items.len(), 2);
    assert_eq!(items[0].id, 5);
    assert_eq!(items[0].name, "A");
    assert_eq!(items[0].url, "https://example.com/a.mp3");
    assert_eq!(items[0].location, "/d/A.mp3");
    assert_eq!(items[0].pub_date, 3);
    assert_eq!(items[1].id, 6);
    assert_eq!(items[1].name, "C");
    assert_eq!(items[1].location, "/d/C.mp3");
    assert!(!p.episodes[0].downloaded_on_last_sync);
    assert!(p.episodes[1].downloaded_on_last_sync);
    assert!(!p.episodes[2].downloaded_on_last_sync);
    assert_eq!(p.episodes[1].title, "B");
}

#[test]
fn plan_downloads_empty() {
    let mut p = podcast(vec![episode("a", "A", 3)]);
    assert!(p.plan_downloads(&vec![], &vec![], &vec![], 0).is_empty());
    assert!(!p.episodes[0].downloaded_on_last_sync);
}

#[test]
fn enclosure_length_parse_edges() {
    let len = |s: &str| Episode::from_feed_item(None, None, String::new(), s, String::new(), None).enclosure.length;
    assert_eq!(len("+5"), 5);
    assert_eq!(len(""), 0);
    assert_eq!(len("-"), 0);
    assert_eq!(len(" 5"), 0);
    assert_eq!(len("007"), 7);
    assert_eq!(len("2147483647"), 2147483647);
    assert_eq!(len("2147483648"), 0);
    assert_eq!(len("-2147483648"), -2147483648);
    assert_eq!(len("-2147483649"), 0);
    assert_eq!(len("99999999999999999999999"), 0);
}
