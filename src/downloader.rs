use vstd::prelude::*;
use vstd::string::StrSliceExecFns;
use crossbeam::queue::ArrayQueue;
use crate::helpers::push_char;

verus! {

/// How far the download of one item has come.
#[derive(Debug, Clone, Copy, PartialEq, Eq)]
pub struct DownloadProgress {
    pub id: u32,
    /// The byte count that the server declared, or 0 when it declared none.
    pub total_size: u64,
    /// The bytes received so far.
    pub completed: u64,
}

impl DownloadProgress {
    pub fn new(id: u32, total_size: u64, completed: u64) -> (r: Self)
        ensures
            r.id == id,
            r.total_size == total_size,
            r.completed == completed,
    {
        Self { id, total_size, completed }
    }

    /// The share received, in whole percent rounded down and capped at
    /// `u64::MAX`; `None` when no total was declared.
    pub fn percent(&self) -> (r: Option<u64>)
        ensures
            self.total_size == 0 ==> r is None,
            self.total_size > 0 ==> r == Some(percent_of(self.completed, self.total_size)),
    {
        if self.total_size == 0 {
            None
        } else {
            let p: u128 = 100u128 * (self.completed as u128) / (self.total_size as u128);
            if p > u64::MAX as u128 {
                Some(u64::MAX)
            } else {
                Some(p as u64)
            }
        }
    }
}

pub open spec fn percent_of(completed: u64, total: u64) -> u64 {
    let p = 100 * (completed as int) / (total as int);
    if p > u64::MAX {
        u64::MAX
    } else {
        p as u64
    }
}

/// An event of the stream that the workers send to the consumer.
#[derive(Debug, Clone, PartialEq, Eq)]
pub enum DownloadMessage {
    Started(DownloadProgress),
    Incremental(DownloadProgress),
    Completed(DownloadProgress),
    Failed(String),
    ThreadTerminated,
}

/// One file to fetch.
pub struct DownloadQueueElement {
    pub name: String,
    pub id: u32,
    /// The source address.
    pub url: String,
    /// The path of the final file.
    pub location: String,
    /// The publication time, in whole seconds since the Unix epoch, given to
    /// the final file as its access and modification time.
    pub pub_date: i64,
}

/// The path component of `s` when `s` parses as an absolute URL.
pub uninterp spec fn url_path_of(s: Seq<char>) -> Option<Seq<char>>;

/// Relies on url::Url::parse and its `path`: the path of the parsed URL, or
/// `None` when the text does not parse.
#[verifier::external_body]
fn parsed_url_path(s: &str) -> (r: Option<String>)
    ensures
        r is None <==> url_path_of(s@) is None,
        r matches Some(p) ==> url_path_of(s@) == Some(p@),
{
    url::Url::parse(s).ok().map(|u| u.path().to_string())
}

/// Whether `s` parses as an absolute URL.
pub fn url_parses(s: &str) -> (r: bool)
    ensures
        r == (url_path_of(s@) is Some),
{
    parsed_url_path(s).is_some()
}

/// The extension of the format that needs no conversion.
pub open spec fn native_suffix() -> Seq<char> {
    seq!['m', 'p', '3']
}

pub open spec fn ends_with(s: Seq<char>, suffix: Seq<char>) -> bool {
    s.len() >= suffix.len() && s.subrange(s.len() - suffix.len(), s.len() as int) == suffix
}

/// Whether the file behind `url` already has the native format.
pub open spec fn is_native_url(url: Seq<char>) -> bool {
    url_path_of(url) matches Some(p) && ends_with(p, native_suffix())
}

fn ends_with_native(s: &str) -> (r: bool)
    ensures
        r == ends_with(s@, native_suffix()),
{
    let n = s.unicode_len();
    if n < 3 {
        return false;
    }
    let r = s.get_char(n - 3) == 'm' && s.get_char(n - 2) == 'p' && s.get_char(n - 1) == '3';
    assert(r ==> s@.subrange(n - 3, n as int) =~= native_suffix());
    assert(s@.subrange(n - 3, n as int) == native_suffix() ==> s@.subrange(n - 3, n as int)[0]
        == 'm' && s@.subrange(n - 3, n as int)[1] == 'p' && s@.subrange(n - 3, n as int)[2]
        == '3');
    r
}

/// The character of a decimal digit.
pub open spec fn digit_char(d: int) -> char {
    if d == 0 {
        '0'
    } else if d == 1 {
        '1'
    } else if d == 2 {
        '2'
    } else if d == 3 {
        '3'
    } else if d == 4 {
        '4'
    } else if d == 5 {
        '5'
    } else if d == 6 {
        '6'
    } else if d == 7 {
        '7'
    } else if d == 8 {
        '8'
    } else {
        '9'
    }
}

/// The decimal notation of `n`, without leading zeros.
pub open spec fn decimal(n: nat) -> Seq<char>
    decreases n,
{
    if n < 10 {
        seq![digit_char(n as int)]
    } else {
        decimal(n / 10).push(digit_char((n % 10) as int))
    }
}

/// The directory part of every temporary download path.
pub open spec fn temp_prefix() -> Seq<char> {
    seq!['/', 't', 'm', 'p', '/', 'o', 'x', 'i', '_']
}

/// The temporary path where the item `id` is written before conversion.
pub open spec fn temp_path(id: u32) -> Seq<char> {
    temp_prefix() + decimal(id as nat)
}

/// The path that the body of `e` is written to.
pub open spec fn download_target(e: DownloadQueueElement) -> Seq<char> {
    if is_native_url(e.url@) {
        e.location@
    } else {
        temp_path(e.id)
    }
}

fn digit(d: u32) -> (c: char)
    requires
        d < 10,
    ensures
        c == digit_char(d as int),
{
    if d == 0 {
        '0'
    } else if d == 1 {
        '1'
    } else if d == 2 {
        '2'
    } else if d == 3 {
        '3'
    } else if d == 4 {
        '4'
    } else if d == 5 {
        '5'
    } else if d == 6 {
        '6'
    } else if d == 7 {
        '7'
    } else if d == 8 {
        '8'
    } else {
        '9'
    }
}

fn push_decimal(s: &mut String, n: u32)
    ensures
        final(s)@ == old(s)@ + decimal(n as nat),
    decreases n,
{
    if n >= 10 {
        push_decimal(s, n / 10);
    }
    push_char(s, digit(n % 10));
    assert(final(s)@ =~= old(s)@ + decimal(n as nat));
}

/// The temporary path for the item `id`; each identity has its own.
pub fn temp_download_path(id: u32) -> (r: String)
    ensures
        r@ == temp_path(id),
{
    let mut s = String::new();
    push_char(&mut s, '/');
    push_char(&mut s, 't');
    push_char(&mut s, 'm');
    push_char(&mut s, 'p');
    push_char(&mut s, '/');
    push_char(&mut s, 'o');
    push_char(&mut s, 'x');
    push_char(&mut s, 'i');
    push_char(&mut s, '_');
    assert(s@ =~= temp_prefix());
    push_decimal(&mut s, id);
    s
}

impl DownloadQueueElement {
    /// Whether the source already has the native format, so that no
    /// conversion follows the download.
    pub fn is_native(&self) -> (r: bool)
        ensures
            r == is_native_url(self.url@),
    {
        match parsed_url_path(self.url.as_str()) {
            Some(p) => ends_with_native(p.as_str()),
            None => false,
        }
    }

    /// Where the body is written: the final location for a native file,
    /// else the item's temporary path.
    pub fn download_path(&self) -> (r: String)
        ensures
            r@ == download_target(*self),
    {
        if self.is_native() {
            self.location.clone()
        } else {
            temp_download_path(self.id)
        }
    }
}

#[verifier::external_type_specification]
#[verifier::external_body]
#[verifier::reject_recursive_types(T)]
pub struct ExArrayQueue<T>(ArrayQueue<T>);

/// The queue that the workers of one batch share.
pub type WorkQueue = ArrayQueue<DownloadQueueElement>;

/// What pushing onto a full queue hands back.
pub type PushResult = Result<(), DownloadQueueElement>;

/// The identities of the items that the queue holds, oldest first.
pub uninterp spec fn queued_ids(q: ArrayQueue<DownloadQueueElement>) -> Seq<u32>;

/// The capacity that the queue was made with.
pub uninterp spec fn queue_capacity(q: ArrayQueue<DownloadQueueElement>) -> nat;

/// Relies on ArrayQueue::new: an empty queue of the given capacity. It panics
/// when the capacity is zero or when the capacity plus one, rounded up to a
/// power of two, overflows a `u64`.
#[verifier::external_body]
fn new_queue(cap: usize) -> (q: ArrayQueue<DownloadQueueElement>)
    requires
        0 < cap,
        cap < 0x8000_0000_0000_0000,
    ensures
        queued_ids(q) == Seq::<u32>::empty(),
        queue_capacity(q) == cap,
{
    ArrayQueue::new(cap)
}

/// Relies on ArrayQueue::push_mut: the element goes to the back of the queue,
/// or comes back as the error when the queue is full.
#[verifier::external_body]
fn push_queue(q: &mut ArrayQueue<DownloadQueueElement>, e: DownloadQueueElement) -> (r: PushResult)
    ensures
        queue_capacity(*final(q)) == queue_capacity(*old(q)),
        queued_ids(*old(q)).len() < queue_capacity(*old(q)) ==> r is Ok && queued_ids(*final(q))
            == queued_ids(*old(q)).push(e.id),
        queued_ids(*old(q)).len() >= queue_capacity(*old(q)) ==> r == PushResult::Err(e)
            && queued_ids(*final(q)) == queued_ids(*old(q)),
{
    q.push_mut(e)
}

/// The identities of a batch, in order.
pub open spec fn batch_ids(list: Seq<DownloadQueueElement>) -> Seq<u32> {
    list.map_values(|e: DownloadQueueElement| e.id)
}

/// Why a batch cannot be queued.
#[derive(Debug, Clone, Copy, PartialEq, Eq)]
pub enum QueueError {
    /// Two items share an identity.
    DuplicateId,
    /// An item's location is the temporary path of an item that needs
    /// conversion, so that writing or removing one would touch the other.
    TempPathClash,
}

/// The outcome of building the queue.
pub type QueueResult = Result<WorkQueue, QueueError>;

/// `r` is a queue that holds the whole batch in order, with room for exactly
/// the batch.
pub open spec fn holds_batch(r: QueueResult, list: Seq<DownloadQueueElement>) -> bool {
    match r {
        Ok(q) => queued_ids(q) == batch_ids(list) && queue_capacity(q) == list.len(),
        Err(_) => false,
    }
}

/// No two items of the batch share an identity.
pub open spec fn ids_distinct(list: Seq<DownloadQueueElement>) -> bool {
    forall|i: int, j: int| 0 <= i < j < list.len() ==> list[i].id != list[j].id
}

/// Some item's location is the temporary path of an item that is converted.
pub open spec fn temp_clash(list: Seq<DownloadQueueElement>) -> bool {
    exists|i: int, j: int|
        0 <= i < list.len() && 0 <= j < list.len() && !is_native_url(#[trigger] list[j].url@)
            && #[trigger] list[i].location@ == temp_path(list[j].id)
}

fn check_ids_distinct(list: &Vec<DownloadQueueElement>) -> (r: bool)
    ensures
        r == ids_distinct(list@),
{
    let n = list.len();
    let mut i: usize = 0;
    while i < n
        invariant
            n == list@.len(),
            i <= n,
            forall|a: int, b: int| 0 <= a < b < n && a < i ==> list@[a].id != list@[b].id,
        decreases n - i,
    {
        let mut j: usize = i + 1;
        while j < n
            invariant
                n == list@.len(),
                i < n,
                i < j <= n,
                forall|a: int, b: int| 0 <= a < b < n && a < i ==> list@[a].id != list@[b].id,
                forall|b: int| i < b < j ==> list@[i as int].id != list@[b].id,
            decreases n - j,
        {
            if list[i].id == list[j].id {
                return false;
            }
            j = j + 1;
        }
        i = i + 1;
    }
    true
}

fn check_temp_clash(list: &Vec<DownloadQueueElement>) -> (r: bool)
    ensures
        r == temp_clash(list@),
{
    let n = list.len();
    let mut j: usize = 0;
    while j < n
        invariant
            n == list@.len(),
            j <= n,
            forall|a: int, b: int|
                0 <= a < n && 0 <= b < j && !is_native_url(#[trigger] list@[b].url@) ==> #[trigger] list@[a].location@
                    != temp_path(list@[b].id),
        decreases n - j,
    {
        if !list[j].is_native() {
            let t = temp_download_path(list[j].id);
            let mut i: usize = 0;
            while i < n
                invariant
                    n == list@.len(),
                    j < n,
                    i <= n,
                    t@ == temp_path(list@[j as int].id),
                    !is_native_url(list@[j as int].url@),
                    forall|a: int| 0 <= a < i ==> #[trigger] list@[a].location@ != t@,
                decreases n - i,
            {
                if list[i].location == t {
                    assert(list@[i as int].location@ == temp_path(list@[j as int].id));
                    return true;
                }
                i = i + 1;
            }
        }
        j = j + 1;
    }
    false
}

/// Builds the queue that the workers share, holding the whole batch in order,
/// with room for exactly the batch. A batch whose identities repeat, or where
/// an item's location is the temporary path of a converted item, is refused
/// before anything is queued.
pub fn create_download_queue(download_list: Vec<DownloadQueueElement>) -> (r: QueueResult)
    requires
        0 < download_list.len(),
        download_list.len() < 0x8000_0000_0000_0000,
    ensures
        !ids_distinct(download_list@) ==> r == QueueResult::Err(QueueError::DuplicateId),
        ids_distinct(download_list@) && temp_clash(download_list@) ==> r == QueueResult::Err(
            QueueError::TempPathClash,
        ),
        ids_distinct(download_list@) && !temp_clash(download_list@) ==> holds_batch(
            r,
            download_list@,
        ),
{
    if !check_ids_distinct(&download_list) {
        return Err(QueueError::DuplicateId);
    }
    if check_temp_clash(&download_list) {
        return Err(QueueError::TempPathClash);
    }
    let ghost all = download_list@;
    let n = download_list.len();
    let mut rest = download_list;
    let mut q = new_queue(n);
    let mut i: usize = 0;
    while i < n
        invariant
            n == all.len(),
            i <= n,
            rest@ == all.subrange(i as int, n as int),
            queue_capacity(q) == n,
            queued_ids(q) =~= batch_ids(all.subrange(0, i as int)),
        decreases n - i,
    {
        let e = rest.remove(0);
        let r = push_queue(&mut q, e);
        assert(r is Ok);
        i = i + 1;
        assert(rest@ =~= all.subrange(i as int, n as int));
        assert(all.subrange(0, i as int) =~= all.subrange(0, i - 1).push(e));
    }
    assert(all.subrange(0, n as int) =~= all);
    Ok(q)
}

/// In a batch that the queue accepts, the file that a converted item is
/// first written to is neither another item's temporary file nor any item's
/// final location, its own included: writing or removing it touches no other
/// file of the batch.
pub proof fn lemma_batch_paths_apart(list: Seq<DownloadQueueElement>, a: int, b: int)
    requires
        ids_distinct(list),
        !temp_clash(list),
        0 <= a < list.len(),
        0 <= b < list.len(),
        !is_native_url(list[a].url@),
    ensures
        download_target(list[a]) != list[b].location@,
        a != b ==> download_target(list[a]) != temp_path(list[b].id),
{
    if a != b {
        if a < b {
            lemma_temp_paths_distinct(list[a].id, list[b].id);
        } else {
            lemma_temp_paths_distinct(list[b].id, list[a].id);
        }
    }
    if download_target(list[a]) == list[b].location@ {
        assert(!is_native_url(list[a].url@) && list[b].location@ == temp_path(list[a].id));
        assert(temp_clash(list));
    }
}

proof fn lemma_decimal_nonempty(n: nat)
    ensures
        decimal(n).len() >= 1,
        n >= 10 ==> decimal(n).len() >= 2,
    decreases n,
{
    if n >= 10 {
        lemma_decimal_nonempty(n / 10);
    }
}

proof fn lemma_digit_char_injective(x: int, y: int)
    requires
        0 <= x < 10,
        0 <= y < 10,
        digit_char(x) == digit_char(y),
    ensures
        x == y,
{
}

/// Different numbers have different decimal notations.
pub proof fn lemma_decimal_injective(a: nat, b: nat)
    requires
        decimal(a) == decimal(b),
    ensures
        a == b,
    decreases a,
{
    lemma_decimal_nonempty(a);
    lemma_decimal_nonempty(b);
    if a < 10 || b < 10 {
        assert(a < 10 && b < 10);
        assert(decimal(a)[0] == digit_char(a as int));
        assert(decimal(b)[0] == digit_char(b as int));
        lemma_digit_char_injective(a as int, b as int);
    } else {
        let da = decimal(a);
        let db = decimal(b);
        assert(da.drop_last() =~= decimal(a / 10));
        assert(db.drop_last() =~= decimal(b / 10));
        assert(da.last() == digit_char((a % 10) as int));
        assert(db.last() == digit_char((b % 10) as int));
        lemma_digit_char_injective((a % 10) as int, (b % 10) as int);
        lemma_decimal_injective(a / 10, b / 10);
        assert(a == 10 * (a / 10) + a % 10) by (nonlinear_arith);
        assert(b == 10 * (b / 10) + b % 10) by (nonlinear_arith);
    }
}

/// Items with different identities get different temporary paths, so one
/// item's temporary file never overwrites another's.
pub proof fn lemma_temp_paths_distinct(id1: u32, id2: u32)
    requires
        id1 != id2,
    ensures
        temp_path(id1) != temp_path(id2),
{
    if temp_path(id1) == temp_path(id2) {
        let k = temp_prefix().len() as int;
        assert(temp_path(id1).subrange(k, temp_path(id1).len() as int) =~= decimal(id1 as nat));
        assert(temp_path(id2).subrange(k, temp_path(id2).len() as int) =~= decimal(id2 as nat));
        lemma_decimal_injective(id1 as nat, id2 as nat);
    }
}

} // verus!
