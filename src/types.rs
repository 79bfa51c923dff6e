use vstd::prelude::*;
use crate::downloader::{url_path_of, DownloadQueueElement};
use crate::helpers::{is_sanitized_name, push_char, sanitize_filename};

verus! {

/// The media file of an episode, as the feed announces it.
#[derive(Debug, Clone, PartialEq, Eq)]
pub struct Enclosure {
    pub url: String,
    pub length: i32,
    pub mime_type: String,
}

#[derive(Debug, Clone, PartialEq, Eq)]
pub struct Episode {
    pub guid: String,
    pub title: String,
    pub enclosure: Enclosure,
    /// The publication time, in whole seconds since the Unix epoch.
    pub pub_date: i64,
    pub downloaded_on_last_sync: bool,
    pub listened_to: bool,
}

#[derive(Debug, Clone, PartialEq, Eq)]
pub struct Podcast {
    pub title: String,
    pub description: Option<String>,
    pub xml_url: String,
    pub html_url: Option<String>,
    pub auto_download_limit: Option<i32>,
    pub episodes: Vec<Episode>,
    /// When the feed was last read, in whole seconds since the Unix epoch.
    pub last_refreshed: i64,
}

#[derive(Debug, Clone, PartialEq, Eq)]
pub struct PodderDB {
    pub podcasts: Vec<Podcast>,
}

/// Why an outline of a subscription list gives no podcast.
#[derive(Debug, Clone, Copy, PartialEq, Eq)]
pub enum OutlineError {
    MissingTitle,
    MissingRssUrl,
    InvalidRssUrl,
}

/// The extension of a downloaded episode's file.
pub open spec fn episode_suffix() -> Seq<char> {
    seq!['.', 'm', 'p', '3']
}

/// The file name of an episode titled `title`.
pub open spec fn is_episode_filename(title: Seq<char>, r: Seq<char>) -> bool {
    r.len() >= 4 && r.subrange(r.len() - 4, r.len() as int) == episode_suffix()
        && is_sanitized_name(title, r.subrange(0, r.len() - 4))
}

/// An address that is present and parses as an absolute URL.
pub open spec fn parses(u: Option<String>) -> bool {
    match u {
        Some(s) => url_path_of(s@) is Some,
        None => false,
    }
}

/// An episode that is neither downloaded nor listened to.
pub open spec fn is_eligible(e: Episode) -> bool {
    !e.downloaded_on_last_sync && !e.listened_to
}

pub open spec fn oldest_first(s: Seq<Episode>) -> bool {
    forall|i: int, j: int| 0 <= i < j < s.len() ==> s[i].pub_date <= s[j].pub_date
}

pub open spec fn newest_first(s: Seq<Episode>) -> bool {
    forall|i: int, j: int| 0 <= i < j < s.len() ==> s[i].pub_date >= s[j].pub_date
}

pub open spec fn has_guid(s: Seq<Episode>, guid: Seq<char>) -> bool {
    exists|i: int| 0 <= i < s.len() && #[trigger] s[i].guid@ == guid
}

/// The value of a non-empty run of decimal digits.
pub open spec fn digits_value(s: Seq<char>) -> int
    decreases s.len(),
{
    if s.len() == 0 {
        0
    } else {
        10 * digits_value(s.drop_last()) + (s.last() as int - '0' as int)
    }
}

pub open spec fn all_digits(s: Seq<char>) -> bool {
    forall|i: int| 0 <= i < s.len() ==> '0' <= #[trigger] s[i] && s[i] <= '9'
}

/// What `str::parse::<i32>` gives: an optional `+` or `-` followed by at
/// least one decimal digit and nothing else, whose value fits in an `i32`.
pub open spec fn parsed_i32(s: Seq<char>) -> Option<i32> {
    let neg = s.len() > 0 && s[0] == '-';
    let body = if s.len() > 0 && (s[0] == '-' || s[0] == '+') {
        s.drop_first()
    } else {
        s
    };
    let v = if neg {
        -digits_value(body)
    } else {
        digits_value(body)
    };
    if body.len() > 0 && all_digits(body) && i32::MIN <= v <= i32::MAX {
        Some(v as i32)
    } else {
        None
    }
}

/// The time that an RFC 2822 date gives, in whole seconds since the Unix
/// epoch, or `None` when the text is no such date.
pub uninterp spec fn rfc2822_seconds(s: Seq<char>) -> Option<i64>;

/// Relies on chrono's DateTime::parse_from_rfc2822 and `timestamp`: the
/// instant that the date names, whatever its offset.
#[verifier::external_body]
fn parse_rfc2822(s: &str) -> (r: Option<i64>)
    ensures
        r == rfc2822_seconds(s@),
{
    chrono::DateTime::parse_from_rfc2822(s).ok().map(|d| d.timestamp())
}

/// A value that has passed the largest magnitude an `i32` can take.
pub const PARSE_CAP: u64 = 2147483649;

pub open spec fn capped(x: int) -> int {
    if x > PARSE_CAP {
        PARSE_CAP as int
    } else {
        x
    }
}

proof fn lemma_capped_step(x: int, d: int)
    requires
        x >= 0,
        0 <= d <= 9,
    ensures
        capped(10 * capped(x) + d) == capped(10 * x + d),
{
    if x > PARSE_CAP {
        assert(10 * x + d > PARSE_CAP) by (nonlinear_arith)
            requires
                x > PARSE_CAP,
                d >= 0,
        ;
    }
}

/// Reads an `i32` as `str::parse` does: an optional sign and at least one
/// decimal digit, with nothing else, in range.
fn parse_i32(s: &str) -> (r: Option<i32>)
    ensures
        r == parsed_i32(s@),
{
    let n = s.unicode_len();
    if n == 0 {
        return None;
    }
    let first = s.get_char(0);
    let neg = first == '-';
    let start: usize = if first == '-' || first == '+' {
        1
    } else {
        0
    };
    let ghost body = s@.subrange(start as int, n as int);
    assert(body =~= if s@.len() > 0 && (s@[0] == '-' || s@[0] == '+') {
        s@.drop_first()
    } else {
        s@
    });
    if start == n {
        return None;
    }
    let mut acc: u64 = 0;
    let mut k: usize = start;
    while k < n
        invariant
            n == s@.len(),
            start <= k <= n,
            body == s@.subrange(start as int, n as int),
            body == if s@.len() > 0 && (s@[0] == '-' || s@[0] == '+') {
                s@.drop_first()
            } else {
                s@
            },
            neg == (s@.len() > 0 && s@[0] == '-'),
            all_digits(s@.subrange(start as int, k as int)),
            digits_value(s@.subrange(start as int, k as int)) >= 0,
            acc as int == capped(digits_value(s@.subrange(start as int, k as int))),
        decreases n - k,
    {
        let c = s.get_char(k);
        if c < '0' || c > '9' {
            assert(body[k - start] == c);
            assert(!all_digits(body));
            return None;
        }
        let d = (c as u32 - '0' as u32) as u64;
        let ghost prev = s@.subrange(start as int, k as int);
        let ghost next_s = s@.subrange(start as int, k + 1);
        assert(next_s.drop_last() =~= prev);
        assert(next_s.last() == c);
        assert(digits_value(next_s) == 10 * digits_value(prev) + d);
        proof {
            lemma_capped_step(digits_value(prev), d as int);
        }
        let next = acc * 10 + d;
        acc = if next > PARSE_CAP {
            PARSE_CAP
        } else {
            next
        };
        k = k + 1;
        assert(all_digits(next_s));
    }
    assert(s@.subrange(start as int, n as int) == body);
    if neg {
        if acc <= 2147483648 {
            Some((0i64 - acc as i64) as i32)
        } else {
            None
        }
    } else {
        if acc <= 2147483647 {
            Some(acc as i32)
        } else {
            None
        }
    }
}

/// The positions `k` with `exists[k]` false, in order.
pub open spec fn pending_positions(exists: Seq<bool>) -> Seq<int>
    decreases exists.len(),
{
    if exists.len() == 0 {
        Seq::empty()
    } else {
        let p = pending_positions(exists.drop_last());
        if exists.last() {
            p
        } else {
            p.push(exists.len() - 1)
        }
    }
}

/// Some candidate at episode `i` has its file on disk already.
pub open spec fn marked_present(candidates: Seq<usize>, exists: Seq<bool>, i: int) -> bool {
    exists|k: int| 0 <= k < candidates.len() && candidates[k] == i && #[trigger] exists[k]
}

/// The work item for episode `e`, written to `location`, with identity `id`.
pub open spec fn is_item_for(item: DownloadQueueElement, e: Episode, location: String, id: int) -> bool {
    &&& item.id == id
    &&& item.name@ == e.title@
    &&& item.url@ == e.enclosure.url@
    &&& item.location == location
    &&& item.pub_date == e.pub_date
}

/// The episodes of `s` published at `d`, in their order in `s`.
pub open spec fn with_date(s: Seq<Episode>, d: i64) -> Seq<Episode> {
    s.filter(|e: Episode| e.pub_date == d)
}

/// `t` keeps the order that `s` gives to episodes published at the same time.
pub open spec fn keeps_ties(s: Seq<Episode>, t: Seq<Episode>) -> bool {
    forall|d: i64| #[trigger] with_date(t, d) == with_date(s, d)
}

/// No two episodes share a guid.
pub open spec fn guids_distinct(s: Seq<Episode>) -> bool {
    forall|i: int, j: int| 0 <= i < j < s.len() ==> s[i].guid@ != s[j].guid@
}

/// `old` with the episodes of `items` added, in order, each only when no
/// episode with its guid is there yet.
pub open spec fn merged_episodes(old: Seq<Episode>, items: Seq<Episode>) -> Seq<Episode>
    decreases items.len(),
{
    if items.len() == 0 {
        old
    } else {
        let m = merged_episodes(old, items.drop_last());
        if has_guid(m, items.last().guid@) {
            m
        } else {
            m.push(items.last())
        }
    }
}

proof fn lemma_filter_reverse(s: Seq<Episode>, d: i64)
    ensures
        with_date(s.reverse(), d) == with_date(s, d).reverse(),
    decreases s.len(),
{
    let pred = |e: Episode| e.pub_date == d;
    reveal(Seq::filter);
    if s.len() == 0 {
        assert(s.reverse() =~= s);
        assert(with_date(s, d).reverse() =~= with_date(s, d));
    } else {
        let r = s.drop_last();
        let x = s.last();
        lemma_filter_reverse(r, d);
        assert(s.reverse() =~= seq![x] + r.reverse());
        Seq::filter_distributes_over_add(seq![x], r.reverse(), pred);
        assert(seq![x].drop_last() =~= Seq::<Episode>::empty());
        assert(Seq::<Episode>::empty().filter(pred) =~= Seq::<Episode>::empty());
        if pred(x) {
            assert(seq![x].filter(pred) =~= seq![x]);
            assert(r.filter(pred).push(x).reverse() =~= seq![x] + r.filter(pred).reverse());
        } else {
            assert(seq![x].filter(pred) =~= Seq::<Episode>::empty());
            assert(Seq::<Episode>::empty() + r.filter(pred).reverse() =~= r.filter(pred).reverse());
        }
    }
}

proof fn lemma_reverse_keeps_ties(s: Seq<Episode>, t: Seq<Episode>)
    requires
        keeps_ties(s.reverse(), t),
    ensures
        keeps_ties(s, t.reverse()),
{
    assert forall|d: i64| #[trigger] with_date(t.reverse(), d) == with_date(s, d) by {
        lemma_filter_reverse(t, d);
        lemma_filter_reverse(s, d);
        assert(with_date(s, d).reverse().reverse() =~= with_date(s, d));
    }
}

proof fn lemma_count_two(s: Seq<Episode>, i: int, j: int)
    requires
        0 <= i < j < s.len(),
        s[i] == s[j],
    ensures
        s.to_multiset().count(s[i]) >= 2,
{
    let r = s.remove(i);
    vstd::seq_lib::to_multiset_remove(s, i);
    assert(r[j - 1] == s[j]);
    r.to_multiset_ensures();
    s.to_multiset_ensures();
    assert(r.contains(s[j]));
    assert(r.to_multiset().count(s[i]) >= 1);
    assert(s.to_multiset().count(s[i]) > 0);
    assert(r.to_multiset().count(s[i]) == s.to_multiset().remove(s[i]).count(s[i]));
}

/// Reordering keeps distinct guids distinct.
proof fn lemma_guids_distinct_permutation(s: Seq<Episode>, t: Seq<Episode>)
    requires
        guids_distinct(s),
        t.to_multiset() == s.to_multiset(),
    ensures
        guids_distinct(t),
{
    s.to_multiset_ensures();
    t.to_multiset_ensures();
    assert forall|i: int, j: int| 0 <= i < j < t.len() implies t[i].guid@ != t[j].guid@ by {
        if t[i].guid@ == t[j].guid@ {
            assert(t.to_multiset().count(t[i]) > 0);
            assert(t.to_multiset().count(t[j]) > 0);
            let a = choose|a: int| 0 <= a < s.len() && s[a] == t[i];
            let b = choose|b: int| 0 <= b < s.len() && s[b] == t[j];
            if t[i] == t[j] {
                lemma_count_two(t, i, j);
                if a == b {
                    assert(s.to_multiset().count(s[a]) >= 2);
                    if forall|c: int| 0 <= c < s.len() && c != a ==> s[c] != s[a] {
                        lemma_count_one(s, a);
                    }
                    let c = choose|c: int| 0 <= c < s.len() && c != a && s[c] == s[a];
                    if c < a {
                        assert(s[c].guid@ != s[a].guid@);
                    } else {
                        assert(s[a].guid@ != s[c].guid@);
                    }
                }
            }
            if a < b {
                assert(s[a].guid@ != s[b].guid@);
            } else if b < a {
                assert(s[b].guid@ != s[a].guid@);
            }
        }
    }
}

proof fn lemma_count_one(s: Seq<Episode>, a: int)
    requires
        0 <= a < s.len(),
        forall|c: int| 0 <= c < s.len() && c != a ==> s[c] != s[a],
    ensures
        s.to_multiset().count(s[a]) == 1,
{
    let r = s.remove(a);
    vstd::seq_lib::to_multiset_remove(s, a);
    r.to_multiset_ensures();
    s.to_multiset_ensures();
    if r.contains(s[a]) {
        let k = choose|k: int| 0 <= k < r.len() && r[k] == s[a];
        if k < a {
            assert(r[k] == s[k]);
        } else {
            assert(r[k] == s[k + 1]);
        }
    }
    assert(r.to_multiset().count(s[a]) == 0);
}

proof fn lemma_merged_distinct(old: Seq<Episode>, items: Seq<Episode>)
    requires
        guids_distinct(old),
    ensures
        guids_distinct(merged_episodes(old, items)),
    decreases items.len(),
{
    if items.len() > 0 {
        lemma_merged_distinct(old, items.drop_last());
        let m = merged_episodes(old, items.drop_last());
        if !has_guid(m, items.last().guid@) {
            let n = m.push(items.last());
            assert forall|i: int, j: int| 0 <= i < j < n.len() implies n[i].guid@ != n[j].guid@ by {
                if j == m.len() {
                    assert(n[i] == m[i]);
                    if m[i].guid@ == items.last().guid@ {
                        assert(has_guid(m, items.last().guid@));
                    }
                }
            }
        }
    }
}

/// Relies on slice::sort_by_key, a stable sort: the same episodes, by
/// ascending publication time, those published at the same time in the order
/// they had.
#[verifier::external_body]
fn sort_by_pub_date(v: &mut Vec<Episode>)
    ensures
        final(v)@.to_multiset() == old(v)@.to_multiset(),
        oldest_first(final(v)@),
        keeps_ties(old(v)@, final(v)@),
{
    v.sort_by_key(|e| e.pub_date)
}

/// Puts the episodes in the opposite order.
fn reverse_episodes(v: &mut Vec<Episode>)
    ensures
        final(v)@ == old(v)@.reverse(),
{
    let ghost orig = v@;
    let mut out: Vec<Episode> = Vec::new();
    while v.len() > 0
        invariant
            v@ == orig.subrange(0, v@.len() as int),
            v@.len() <= orig.len(),
            out@.len() + v@.len() == orig.len(),
            forall|m: int| 0 <= m < out@.len() ==> #[trigger] out@[m] == orig[orig.len() - 1 - m],
        decreases v@.len(),
    {
        let e = v.pop().unwrap();
        out.push(e);
        assert(v@ =~= orig.subrange(0, v@.len() as int));
    }
    assert(out@ =~= orig.reverse());
    *v = out;
}

impl Episode {
    /// The sanitized title with the extension of the native format.
    pub fn filename(&self) -> (r: String)
        ensures
            is_episode_filename(self.title@, r@),
    {
        let mut r = sanitize_filename(self.title.as_str());
        let ghost base = r@;
        push_char(&mut r, '.');
        push_char(&mut r, 'm');
        push_char(&mut r, 'p');
        push_char(&mut r, '3');
        assert(r@.subrange(0, r@.len() - 4) =~= base);
        assert(r@.subrange(r@.len() - 4, r@.len() as int) =~= episode_suffix());
        r
    }

    /// A new episode from an item of a feed: missing text becomes empty, a
    /// length that is no `i32` becomes 0, and a missing or unreadable date
    /// becomes the Unix epoch.
    pub fn from_feed_item(
        guid: Option<String>,
        title: Option<String>,
        enclosure_url: String,
        enclosure_length: &str,
        mime_type: String,
        pub_date: Option<String>,
    ) -> (e: Episode)
        ensures
            e.guid@ == match guid {
                Some(g) => g@,
                None => Seq::<char>::empty(),
            },
            e.title@ == match title {
                Some(t) => t@,
                None => Seq::<char>::empty(),
            },
            e.enclosure.url == enclosure_url,
            e.enclosure.length == match parsed_i32(enclosure_length@) {
                Some(n) => n,
                None => 0i32,
            },
            e.enclosure.mime_type == mime_type,
            e.pub_date == match pub_date {
                Some(d) => match rfc2822_seconds(d@) {
                    Some(t) => t,
                    None => 0i64,
                },
                None => 0i64,
            },
            !e.downloaded_on_last_sync,
            !e.listened_to,
    {
        let guid = match guid {
            Some(g) => g,
            None => String::new(),
        };
        let title = match title {
            Some(t) => t,
            None => String::new(),
        };
        let length = match parse_i32(enclosure_length) {
            Some(n) => n,
            None => 0,
        };
        let pub_date = match pub_date {
            Some(d) => match parse_rfc2822(d.as_str()) {
                Some(t) => t,
                None => 0,
            },
            None => 0,
        };
        Episode {
            guid,
            title,
            enclosure: Enclosure { url: enclosure_url, length, mime_type },
            pub_date,
            downloaded_on_last_sync: false,
            listened_to: false,
        }
    }

    /// An episode recorded as downloaded whose file is gone was listened to
    /// and deleted: it is no longer counted as downloaded, and is marked as
    /// listened to so that it is not fetched again.
    pub fn reconcile_with_disk(&mut self, file_exists: bool)
        ensures
            final(self).guid == old(self).guid,
            final(self).title == old(self).title,
            final(self).enclosure == old(self).enclosure,
            final(self).pub_date == old(self).pub_date,
            old(self).downloaded_on_last_sync && !file_exists ==> !final(self).downloaded_on_last_sync && final(self).listened_to,
            !(old(self).downloaded_on_last_sync && !file_exists) ==> final(self).downloaded_on_last_sync == old(self).downloaded_on_last_sync && final(self).listened_to == old(self).listened_to,
    {
        if self.downloaded_on_last_sync && !file_exists {
            self.downloaded_on_last_sync = false;
            self.listened_to = true;
        }
    }
}

impl Podcast {
    /// The sanitized title, used as the podcast's directory name.
    pub fn filename(&self) -> (r: String)
        ensures
            is_sanitized_name(self.title@, r@),
    {
        sanitize_filename(self.title.as_str())
    }

    /// A podcast from one outline of a subscription list: the title and the
    /// feed address are required, and the feed address must parse; a home
    /// page address that does not parse is dropped. New podcasts download up
    /// to five episodes automatically.
    pub fn from_outline(
        title: Option<String>,
        description: Option<String>,
        xml_url: Option<String>,
        html_url: Option<String>,
        now: i64,
    ) -> (r: Result<Podcast, OutlineError>)
        ensures
            title is None ==> r == Err::<Podcast, _>(OutlineError::MissingTitle),
            title is Some && xml_url is None ==> r == Err::<Podcast, _>(
                OutlineError::MissingRssUrl,
            ),
            title is Some && xml_url is Some && !parses(xml_url) ==> r == Err::<Podcast, _>(
                OutlineError::InvalidRssUrl,
            ),
            r matches Ok(p) ==> {
                &&& title == Some(p.title)
                &&& xml_url == Some(p.xml_url)
                &&& url_path_of(p.xml_url@) is Some
                &&& p.description == description
                &&& p.html_url == match html_url {
                    Some(h) => if url_path_of(h@) is Some {
                        Some(h)
                    } else {
                        None
                    },
                    None => None,
                }
                &&& p.auto_download_limit == Some(5i32)
                &&& p.episodes@.len() == 0
                &&& p.last_refreshed == now
            },
            title is Some && parses(xml_url) ==> r is Ok,
    {
        let title = match title {
            Some(t) => t,
            None => return Err(OutlineError::MissingTitle),
        };
        let xml_url = match xml_url {
            Some(u) => u,
            None => return Err(OutlineError::MissingRssUrl),
        };
        if !crate::downloader::url_parses(xml_url.as_str()) {
            return Err(OutlineError::InvalidRssUrl);
        }
        let html_url = match html_url {
            Some(h) => if crate::downloader::url_parses(h.as_str()) {
                Some(h)
            } else {
                None
            },
            None => None,
        };
        Ok(
            Podcast {
                title,
                description,
                xml_url,
                html_url,
                auto_download_limit: Some(5),
                episodes: Vec::new(),
                last_refreshed: now,
            },
        )
    }

    /// Adds `e` unless an episode with the same guid is already known;
    /// returns whether it was added.
    pub fn add_episode(&mut self, e: Episode) -> (added: bool)
        ensures
            added == !has_guid(old(self).episodes@, e.guid@),
            added ==> final(self).episodes@ == old(self).episodes@.push(e),
            !added ==> final(self).episodes@ == old(self).episodes@,
            final(self).title == old(self).title,
            final(self).xml_url == old(self).xml_url,
            final(self).last_refreshed == old(self).last_refreshed,
    {
        let n = self.episodes.len();
        let mut i: usize = 0;
        while i < n
            invariant
                n == self.episodes@.len(),
                i <= n,
                forall|k: int| 0 <= k < i ==> self.episodes@[k].guid@ != e.guid@,
            decreases n - i,
        {
            if self.episodes[i].guid == e.guid {
                return false;
            }
            i = i + 1;
        }
        self.episodes.push(e);
        true
    }

    /// Merges the episodes just read from the feed: those with a new guid
    /// are added, the refresh time is set, and the episodes are put oldest
    /// first, episodes published at the same time keeping their order.
    pub fn merge_feed(&mut self, items: Vec<Episode>, now: i64)
        ensures
            final(self).last_refreshed == now,
            final(self).title == old(self).title,
            final(self).xml_url == old(self).xml_url,
            final(self).episodes@.to_multiset() == merged_episodes(
                old(self).episodes@,
                items@,
            ).to_multiset(),
            oldest_first(final(self).episodes@),
            keeps_ties(merged_episodes(old(self).episodes@, items@), final(self).episodes@),
            guids_distinct(old(self).episodes@) ==> guids_distinct(final(self).episodes@),
    {
        let ghost old_eps = self.episodes@;
        let ghost all = items@;
        let mut rest = items;
        let n = rest.len();
        let mut i: usize = 0;
        while i < n
            invariant
                n == all.len(),
                i <= n,
                rest@ == all.subrange(i as int, n as int),
                self.title == old(self).title,
                self.xml_url == old(self).xml_url,
                self.episodes@ == merged_episodes(old_eps, all.subrange(0, i as int)),
            decreases n - i,
        {
            let e = rest.remove(0);
            assert(e == all[i as int]);
            self.add_episode(e);
            i = i + 1;
            assert(rest@ =~= all.subrange(i as int, n as int));
            assert(all.subrange(0, i as int).drop_last() =~= all.subrange(0, i - 1));
        }
        assert(all.subrange(0, n as int) =~= all);
        self.last_refreshed = now;
        let ghost merged = self.episodes@;
        sort_by_pub_date(&mut self.episodes);
        proof {
            if guids_distinct(old_eps) {
                lemma_merged_distinct(old_eps, all);
                lemma_guids_distinct_permutation(merged, self.episodes@);
            }
        }
    }

    /// Puts the episodes newest first and gives the positions, in order, of
    /// those among the first `count` that are neither downloaded nor listened
    /// to.
    pub fn download_candidates(&mut self, count: usize) -> (r: Vec<usize>)
        ensures
            final(self).episodes@.to_multiset() == old(self).episodes@.to_multiset(),
            newest_first(final(self).episodes@),
            keeps_ties(old(self).episodes@, final(self).episodes@),
            final(self).title == old(self).title,
            final(self).xml_url == old(self).xml_url,
            forall|a: int, b: int| 0 <= a < b < r@.len() ==> r@[a] < r@[b],
            forall|k: int|
                0 <= k < final(self).episodes@.len() ==> (r@.contains(k as usize) <==> (k < count
                    && is_eligible(#[trigger] final(self).episodes@[k]))),
            forall|k: int| 0 <= k < r@.len() ==> #[trigger] r@[k] < final(self).episodes@.len(),
    {
        let ghost original = self.episodes@;
        reverse_episodes(&mut self.episodes);
        let ghost reversed = self.episodes@;
        sort_by_pub_date(&mut self.episodes);
        let ghost sorted = self.episodes@;
        reverse_episodes(&mut self.episodes);
        proof {
            original.lemma_reverse_to_multiset();
            sorted.lemma_reverse_to_multiset();
            lemma_reverse_keeps_ties(original, sorted);
            assert forall|i: int, j: int| 0 <= i < j < self.episodes@.len() implies self.episodes@[i].pub_date
                >= self.episodes@[j].pub_date by {
                assert(self.episodes@[i] == sorted[sorted.len() - 1 - i]);
                assert(self.episodes@[j] == sorted[sorted.len() - 1 - j]);
            }
        }
        let n = self.episodes.len();
        let mut r: Vec<usize> = Vec::new();
        let mut i: usize = 0;
        while i < n && i < count
            invariant
                n == self.episodes@.len(),
                i <= n,
                i <= count,
                forall|a: int, b: int| 0 <= a < b < r@.len() ==> r@[a] < r@[b],
                forall|k: int| 0 <= k < r@.len() ==> #[trigger] r@[k] < i,
                forall|k: int|
                    0 <= k < i ==> (r@.contains(k as usize) <==> is_eligible(
                        #[trigger] self.episodes@[k],
                    )),
            decreases n - i,
        {
            let ghost r0 = r@;
            let e = &self.episodes[i];
            if !e.downloaded_on_last_sync && !e.listened_to {
                r.push(i);
            }
            proof {
                assert forall|k: int| 0 <= k < i + 1 implies (r@.contains(k as usize) <==> is_eligible(
                    #[trigger] self.episodes@[k],
                )) by {
                    if r@.contains(k as usize) {
                        let m = choose|m: int| 0 <= m < r@.len() && r@[m] == k as usize;
                        if m < r0.len() {
                            assert(r0[m] == r@[m]);
                            assert(r0.contains(k as usize));
                        }
                    } else {
                        if k < i && r0.contains(k as usize) {
                            let m = choose|m: int| 0 <= m < r0.len() && r0[m] == k as usize;
                            assert(r@[m] == r0[m]);
                        }
                        if k == i && is_eligible(self.episodes@[k]) {
                            assert(r@[r@.len() - 1] == i);
                        }
                    }
                    if k == i && r0.contains(k as usize) {
                        let m = choose|m: int| 0 <= m < r0.len() && r0[m] == k as usize;
                        assert(r0[m] < i);
                    }
                }
            }
            i = i + 1;
        }
        proof {
            assert forall|k: int| 0 <= k < self.episodes@.len() implies (r@.contains(k as usize) <==> (k
                < count && is_eligible(#[trigger] self.episodes@[k]))) by {
                if r@.contains(k as usize) {
                    let m = choose|m: int| 0 <= m < r@.len() && r@[m] == k as usize;
                    assert(r@[m] < i);
                }
            }
        }
        r
    }

    /// Turns the chosen episodes into work items. `candidates` are episode
    /// positions, `exists` says for each whether its file is on disk already
    /// and `locations` gives where it goes. An episode whose file is there is
    /// only marked as downloaded; each other one becomes an item, in order,
    /// with the identities `first_id`, `first_id + 1`, and so on.
    pub fn plan_downloads(
        &mut self,
        candidates: &Vec<usize>,
        exists: &Vec<bool>,
        locations: &Vec<String>,
        first_id: u32,
    ) -> (r: Vec<DownloadQueueElement>)
        requires
            exists@.len() == candidates@.len(),
            locations@.len() == candidates@.len(),
            forall|k: int| 0 <= k < candidates@.len() ==> #[trigger] candidates@[k] < old(self).episodes@.len(),
            forall|a: int, b: int| 0 <= a < b < candidates@.len() ==> candidates@[a] < candidates@[b],
            first_id + candidates@.len() <= u32::MAX,
        ensures
            final(self).title == old(self).title,
            final(self).episodes@.len() == old(self).episodes@.len(),
            forall|i: int| #![trigger final(self).episodes@[i]]
                0 <= i < old(self).episodes@.len() ==> final(self).episodes@[i] == if marked_present(
                    candidates@,
                    exists@,
                    i,
                ) {
                    Episode { downloaded_on_last_sync: true, ..old(self).episodes@[i] }
                } else {
                    old(self).episodes@[i]
                },
            r@.len() == pending_positions(exists@).len(),
            forall|m: int| #![trigger r@[m]]
                0 <= m < r@.len() ==> is_item_for(
                    r@[m],
                    old(self).episodes@[candidates@[pending_positions(exists@)[m]] as int],
                    locations@[pending_positions(exists@)[m]],
                    first_id + m,
                ),
    {
        let ghost old_eps = self.episodes@;
        let n = candidates.len();
        let mut r: Vec<DownloadQueueElement> = Vec::new();
        let mut k: usize = 0;
        while k < n
            invariant
                n == candidates@.len(),
                n == exists@.len(),
                n == locations@.len(),
                k <= n,
                self.title == old(self).title,
                self.episodes@.len() == old_eps.len(),
                forall|j: int| 0 <= j < n ==> #[trigger] candidates@[j] < old_eps.len(),
                forall|a: int, b: int| 0 <= a < b < n ==> candidates@[a] < candidates@[b],
                first_id + n <= u32::MAX,
                forall|i: int| #![trigger self.episodes@[i]]
                    0 <= i < old_eps.len() ==> self.episodes@[i] == if marked_present(
                        candidates@.subrange(0, k as int),
                        exists@.subrange(0, k as int),
                        i,
                    ) {
                        Episode { downloaded_on_last_sync: true, ..old_eps[i] }
                    } else {
                        old_eps[i]
                    },
                r@.len() == pending_positions(exists@.subrange(0, k as int)).len(),
                r@.len() <= k,
                forall|m: int| 0 <= m < pending_positions(exists@.subrange(0, k as int)).len() ==> 0
                    <= #[trigger] pending_positions(exists@.subrange(0, k as int))[m] < k,
                forall|m: int| #![trigger r@[m]]
                    0 <= m < r@.len() ==> is_item_for(
                        r@[m],
                        old_eps[candidates@[pending_positions(exists@.subrange(0, k as int))[m]] as int],
                        locations@[pending_positions(exists@.subrange(0, k as int))[m]],
                        first_id + m,
                    ),
            decreases n - k,
        {
            let idx = candidates[k];
            let ghost before = self.episodes@;
            let ghost pk = pending_positions(exists@.subrange(0, k as int));
            assert(exists@.subrange(0, k + 1).drop_last() =~= exists@.subrange(0, k as int));
            assert(!marked_present(candidates@.subrange(0, k as int), exists@.subrange(0, k as int), idx as int)) by {
                if marked_present(candidates@.subrange(0, k as int), exists@.subrange(0, k as int), idx as int) {
                    let j = choose|j: int| 0 <= j < k && candidates@.subrange(0, k as int)[j] == idx && #[trigger] exists@.subrange(0, k as int)[j];
                    assert(candidates@[j] < candidates@[k as int]);
                }
            }
            if exists[k] {
                let mut e = self.episodes.remove(idx);
                e.downloaded_on_last_sync = true;
                self.episodes.insert(idx, e);
            } else {
                let e = &self.episodes[idx];
                let id = first_id + r.len() as u32;
                r.push(
                    DownloadQueueElement {
                        name: e.title.clone(),
                        id,
                        url: e.enclosure.url.clone(),
                        location: locations[k].clone(),
                        pub_date: e.pub_date,
                    },
                );
            }
            proof {
                let cs = candidates@.subrange(0, k + 1);
                let es = exists@.subrange(0, k + 1);
                assert forall|i: int| #![trigger self.episodes@[i]]
                    0 <= i < old_eps.len() implies self.episodes@[i] == if marked_present(cs, es, i) {
                        Episode { downloaded_on_last_sync: true, ..old_eps[i] }
                    } else {
                        old_eps[i]
                    } by {
                    if i != idx {
                        assert(self.episodes@[i] == before[i]);
                        if marked_present(cs, es, i) {
                            let j = choose|j: int| 0 <= j < cs.len() && cs[j] == i && #[trigger] es[j];
                            assert(j < k);
                            assert(candidates@.subrange(0, k as int)[j] == i);
                            assert(exists@.subrange(0, k as int)[j]);
                        }
                        if marked_present(candidates@.subrange(0, k as int), exists@.subrange(0, k as int), i) {
                            let j = choose|j: int| 0 <= j < k && candidates@.subrange(0, k as int)[j] == i && #[trigger] exists@.subrange(0, k as int)[j];
                            assert(cs[j] == i && es[j]);
                        }
                    } else {
                        if exists@[k as int] {
                            assert(cs[k as int] == i && es[k as int]);
                        } else {
                            if marked_present(cs, es, i) {
                                let j = choose|j: int| 0 <= j < cs.len() && cs[j] == i && #[trigger] es[j];
                                assert(j != k);
                                assert(candidates@.subrange(0, k as int)[j] == i);
                                assert(exists@.subrange(0, k as int)[j]);
                            }
                        }
                    }
                }
                let pk1 = pending_positions(es);
                if !exists@[k as int] {
                    assert(pk1 == pk.push(k as int));
                    assert(pk1[pk.len() as int] == k);
                } else {
                    assert(pk1 == pk);
                }
            }
            k = k + 1;
        }
        assert(exists@.subrange(0, n as int) =~= exists@);
        assert(candidates@.subrange(0, n as int) =~= candidates@);
        r
    }
}

} // verus!
