//! The client's state: what we share, who is waiting for it, and what is on
//! its way.

use vstd::prelude::*;
use crate::client::upload_rules::QueueLimits;
use crate::message::text::same_text;
use crate::types::{DownloadStatus, UploadInfo, UploadStatus};
use vstd::string::StringExecFns;

pub mod upload_rules;
pub mod uploads;

verus! {

/// A file we share: the name peers know it by, where it is on disk, its
/// size, and whether only friends may have it.
#[derive(Debug, Clone)]
pub struct SharedFile {
    pub virtual_path: String,
    pub real_path: String,
    pub size: u64,
    pub friends_only: bool,
}

/// Whether `f` is the file `name` as `friend`, or not, may see it.
pub open spec fn visible(f: SharedFile, name: Seq<char>, friend: bool) -> bool {
    f.virtual_path@ == name && (friend || !f.friends_only)
}

/// `i` is the first file that is `name` as this requester may see it.
pub open spec fn first_visible(files: Seq<SharedFile>, name: Seq<char>, friend: bool, i: int) -> bool {
    &&& 0 <= i < files.len()
    &&& visible(files[i], name, friend)
    &&& forall|j: int| 0 <= j < i ==> !visible(#[trigger] files[j], name, friend)
}

/// The file `name` as this requester may see it, if we share one.
pub open spec fn share_for(files: Seq<SharedFile>, name: Seq<char>, friend: bool) -> Option<SharedFile> {
    if exists|i: int| first_visible(files, name, friend, i) {
        Some(files[choose|i: int| first_visible(files, name, friend, i)])
    } else {
        None
    }
}

/// What we share.
#[derive(Debug, Clone)]
pub struct Shares {
    pub files: Vec<SharedFile>,
}

impl Shares {
    pub fn new(files: Vec<SharedFile>) -> (s: Shares)
        ensures
            s.files@ == files@,
    {
        Shares { files }
    }

    /// The file `filename`, if we share it with this requester: files
    /// shared with friends only are for friends.
    pub fn get_for(&self, filename: &str, friend: bool) -> (r: Option<&SharedFile>)
        ensures
            match share_for(self.files@, filename@, friend) {
                Some(f) => r matches Some(g) && *g == f,
                None => r is None,
            },
    {
        let mut i: usize = 0;
        while i < self.files.len()
            invariant
                i <= self.files@.len(),
                forall|j: int| 0 <= j < i ==> !visible(#[trigger] self.files@[j], filename@, friend),
            decreases self.files@.len() - i,
        {
            let f = &self.files[i];
            if same_text(f.virtual_path.as_str(), filename) && (friend || !f.friends_only) {
                proof {
                    assert(first_visible(self.files@, filename@, friend, i as int));
                    let k = choose|k: int| first_visible(self.files@, filename@, friend, k);
                    assert(k == i) by {
                        if k < i {
                            assert(!visible(self.files@[k], filename@, friend));
                        }
                        if i < k {
                            assert(!visible(self.files@[i as int], filename@, friend));
                        }
                    }
                }
                return Some(f);
            }
            i += 1;
        }
        proof {
            assert forall|k: int| !first_visible(self.files@, filename@, friend, k) by {
                if 0 <= k < self.files@.len() {
                    assert(!visible(self.files@[k], filename@, friend));
                }
            }
        }
        None
    }
}

/// Whether `name` is among `names`.
pub open spec fn listed(names: Seq<String>, name: Seq<char>) -> bool {
    exists|i: int| 0 <= i < names.len() && #[trigger] names[i]@ == name
}

/// Whether `name` is among `names`.
pub fn is_listed(names: &Vec<String>, name: &str) -> (r: bool)
    ensures
        r == listed(names@, name@),
{
    let mut i: usize = 0;
    while i < names.len()
        invariant
            i <= names@.len(),
            forall|j: int| 0 <= j < i ==> #[trigger] names@[j]@ != name@,
        decreases names@.len() - i,
    {
        if same_text(names[i].as_str(), name) {
            return true;
        }
        i += 1;
    }
    false
}

/// A file someone is waiting for, or has been offered.
#[derive(Debug, Clone)]
pub struct UploadJob {
    pub downloader: String,
    pub virtual_path: String,
    pub real_path: String,
    pub size: u64,
}

/// A file on its way to someone.
#[derive(Debug, Clone)]
pub struct ActiveUpload {
    pub username: String,
    pub filename: String,
    pub size: u64,
    pub status: UploadStatus,
}

/// A file we are fetching from someone.
#[derive(Debug, Clone)]
pub struct DownloadEntry {
    pub token: u32,
    pub username: String,
    pub filename: String,
    pub status: DownloadStatus,
}

/// An offer to send a queued file: to whom, under which token, what, and
/// how big.
#[derive(Debug, Clone)]
pub struct UploadOffer {
    pub requester_key: String,
    pub token: u32,
    pub virtual_path: String,
    pub size: u64,
}

/// Everything the client keeps.
pub struct ClientContext {
    pub shares: Shares,
    pub friends: Vec<String>,
    pub ignored: Vec<String>,
    pub privileged: Vec<String>,
    /// Seconds of our own privileges left, once the server has said.
    pub own_privileges: Option<u32>,
    /// Who waits for what, first come first.
    pub upload_queue: Vec<UploadJob>,
    /// Files offered and not yet streaming, by token.
    pub uploads: Vec<(u32, UploadJob)>,
    /// Files streaming or done, by token.
    pub active_uploads: Vec<(u32, ActiveUpload)>,
    pub queue_limits: QueueLimits,
    pub shutting_down: bool,
    pub upload_slots: usize,
    pub profile_text: String,
    pub profile_picture: Option<Vec<u8>>,
    /// Upload states recorded since the host last asked.
    pub upload_events: Vec<UploadInfo>,
    pub last_upload_speed: u32,
    pub downloads: Vec<DownloadEntry>,
    /// Download states recorded since the host last asked.
    pub download_events: Vec<(u32, DownloadStatus)>,
    pub next_token: u32,
}

/// Where the next offer comes from: the first job of a privileged peer, or
/// else the first job.
pub open spec fn next_in_line(queue: Seq<UploadJob>, privileged: Seq<String>) -> int {
    if exists|i: int| first_privileged(queue, privileged, i) {
        choose|i: int| first_privileged(queue, privileged, i)
    } else {
        0
    }
}

/// Who is offered next: the first job of a privileged peer when any is
/// waiting, else the first job in the queue.
pub proof fn lemma_privileged_first(queue: Seq<UploadJob>, privileged: Seq<String>)
    requires
        queue.len() > 0,
    ensures
        0 <= next_in_line(queue, privileged) < queue.len(),
        (exists|i: int| 0 <= i < queue.len() && listed(privileged, #[trigger] queue[i].downloader@)) ==> {
            &&& listed(privileged, queue[next_in_line(queue, privileged)].downloader@)
            &&& forall|j: int| 0 <= j < next_in_line(queue, privileged) ==> !listed(privileged, #[trigger] queue[j].downloader@)
        },
        !(exists|i: int| 0 <= i < queue.len() && listed(privileged, #[trigger] queue[i].downloader@))
            ==> next_in_line(queue, privileged) == 0,
{
    if exists|i: int| 0 <= i < queue.len() && listed(privileged, #[trigger] queue[i].downloader@) {
        let i = choose|i: int| 0 <= i < queue.len() && listed(privileged, #[trigger] queue[i].downloader@);
        lemma_some_privileged_first(queue, privileged, i);
    }
}

proof fn lemma_some_privileged_first(queue: Seq<UploadJob>, privileged: Seq<String>, i: int)
    requires
        0 <= i < queue.len(),
        listed(privileged, queue[i].downloader@),
    ensures
        exists|k: int| first_privileged(queue, privileged, k),
    decreases i,
{
    if exists|j: int| 0 <= j < i && listed(privileged, #[trigger] queue[j].downloader@) {
        let j = choose|j: int| 0 <= j < i && listed(privileged, #[trigger] queue[j].downloader@);
        lemma_some_privileged_first(queue, privileged, j);
    } else {
        assert(first_privileged(queue, privileged, i));
    }
}

/// `i` is the first job of a privileged peer.
pub open spec fn first_privileged(queue: Seq<UploadJob>, privileged: Seq<String>, i: int) -> bool {
    &&& 0 <= i < queue.len()
    &&& listed(privileged, queue[i].downloader@)
    &&& forall|j: int| 0 <= j < i ==> !listed(privileged, #[trigger] queue[j].downloader@)
}

/// How many uploads are streaming.
pub open spec fn streaming_count(active: Seq<(u32, ActiveUpload)>) -> nat
    decreases active.len(),
{
    if active.len() == 0 {
        0
    } else {
        streaming_count(active.drop_last()) + if active.last().1.status is InProgress { 1nat } else { 0nat }
    }
}

proof fn lemma_streaming_counts_in_progress(active: Seq<(u32, ActiveUpload)>, p: spec_fn((u32, ActiveUpload)) -> bool)
    requires
        forall|e: (u32, ActiveUpload)| #[trigger] p(e) == (e.1.status is InProgress),
    ensures
        streaming_count(active) == active.filter(p).len(),
    decreases active.len(),
{
    reveal(Seq::filter);
    if active.len() > 0 {
        lemma_streaming_counts_in_progress(active.drop_last(), p);
    }
}

/// A pump fills free upload slots and no more. A slot is held by each
/// offer not yet answered and by each transfer in progress; when they
/// already hold every slot, nothing is offered; else as many jobs are
/// offered as there are free slots, or as are waiting if fewer. So a pump
/// never raises the number of uploads holding a slot above `slots`.
pub proof fn lemma_pump_fills_free_slots(queue: Seq<UploadJob>, uploads: Seq<(u32, UploadJob)>,
    active: Seq<(u32, ActiveUpload)>, next: u32, privileged: Seq<String>, slots: nat)
    ensures
        ({
            let holding = uploads.len() + active.filter(|e: (u32, ActiveUpload)| e.1.status is InProgress).len();
            let n = offers_owed(uploads.len() + streaming_count(active), slots, queue.len());
            &&& holding >= slots ==> n == 0
            &&& holding < slots ==> n == if slots - holding < queue.len() { (slots - holding) as nat } else { queue.len() }
            &&& holding < slots ==> offer_steps(queue, uploads, next, privileged, n).1.len()
                + active.filter(|e: (u32, ActiveUpload)| e.1.status is InProgress).len() <= slots
        }),
{
    let p = |e: (u32, ActiveUpload)| e.1.status is InProgress;
    lemma_streaming_counts_in_progress(active, p);
    let n = offers_owed(uploads.len() + streaming_count(active), slots, queue.len());
    assert(n <= queue.len());
    lemma_offer_steps_len(queue, uploads, next, privileged, n);
}

/// Whether a download is one the failure is about: from `username`, and
/// `filename` when one is named.
pub open spec fn failed_by(d: DownloadEntry, username: Seq<char>, filename: Option<Seq<char>>) -> bool {
    d.username@ == username && match filename {
        Some(f) => d.filename@ == f,
        None => true,
    }
}

/// Picks the downloads a failure is about.
pub open spec fn failing(username: Seq<char>, filename: Option<Seq<char>>) -> spec_fn(DownloadEntry) -> bool {
    |d: DownloadEntry| failed_by(d, username, filename)
}

/// Picks the downloads a failure is not about.
pub open spec fn unaffected(username: Seq<char>, filename: Option<Seq<char>>) -> spec_fn(DownloadEntry) -> bool {
    |d: DownloadEntry| !failed_by(d, username, filename)
}

/// An optional string as an optional value.
pub open spec fn opt_text(s: Option<&str>) -> Option<Seq<char>> {
    match s {
        Some(t) => Some(t@),
        None => None,
    }
}

/// What a failed download is said to have failed with.
pub open spec fn failure_words(reason: Option<Seq<char>>) -> Seq<char> {
    match reason {
        Some(r) => r,
        None => "The upload failed on the other side"@,
    }
}

fn copy_download_status(s: &DownloadStatus) -> (r: DownloadStatus)
    ensures
        r == *s,
{
    match s {
        DownloadStatus::Queued => DownloadStatus::Queued,
        DownloadStatus::InProgress => DownloadStatus::InProgress,
        DownloadStatus::Completed => DownloadStatus::Completed,
        DownloadStatus::Failed(None) => DownloadStatus::Failed(None),
        DownloadStatus::Failed(Some(why)) => DownloadStatus::Failed(Some(why.clone())),
    }
}

fn copy_job(job: &UploadJob) -> (r: UploadJob)
    ensures
        r == *job,
{
    UploadJob {
        downloader: job.downloader.clone(),
        virtual_path: job.virtual_path.clone(),
        real_path: job.real_path.clone(),
        size: job.size,
    }
}

impl ClientContext {
    /// A client sharing nothing, with one upload slot.
    pub fn new() -> (c: ClientContext)
        ensures
            c.shares.files@ == Seq::<SharedFile>::empty(),
            c.friends@ == Seq::<String>::empty(),
            c.ignored@ == Seq::<String>::empty(),
            c.privileged@ == Seq::<String>::empty(),
            c.own_privileges is None,
            c.upload_queue@ == Seq::<UploadJob>::empty(),
            c.uploads@ == Seq::<(u32, UploadJob)>::empty(),
            c.active_uploads@ == Seq::<(u32, ActiveUpload)>::empty(),
            c.queue_limits == (QueueLimits { files: None, megabytes: None }),
            !c.shutting_down,
            c.upload_slots == 1,
            c.profile_text@ == Seq::<char>::empty(),
            c.profile_picture is None,
            c.upload_events@ == Seq::<UploadInfo>::empty(),
            c.last_upload_speed == 0,
            c.downloads@ == Seq::<DownloadEntry>::empty(),
            c.download_events@ == Seq::<(u32, DownloadStatus)>::empty(),
            c.next_token == 0,
            c.tokens_unique(),
    {
        ClientContext {
            shares: Shares { files: Vec::new() },
            friends: Vec::new(),
            ignored: Vec::new(),
            privileged: Vec::new(),
            own_privileges: None,
            upload_queue: Vec::new(),
            uploads: Vec::new(),
            active_uploads: Vec::new(),
            queue_limits: QueueLimits { files: None, megabytes: None },
            shutting_down: false,
            upload_slots: 1,
            profile_text: String::new(),
            profile_picture: None,
            upload_events: Vec::new(),
            last_upload_speed: 0,
            downloads: Vec::new(),
            download_events: Vec::new(),
            next_token: 0,
        }
    }

    /// Each offer, and each transfer, is filed under a token of its own, as
    /// in a map by token.
    pub open spec fn tokens_unique(&self) -> bool {
        tokens_distinct(self.uploads@) && tokens_distinct(self.active_uploads@)
    }

    /// There are fewer offers and waiting jobs than tokens, so that every
    /// offer can have a token of its own.
    pub open spec fn token_room(&self) -> bool {
        self.uploads@.len() + self.upload_queue@.len() <= u32::MAX
    }

    /// Whether the server listed `username` as privileged.
    pub fn is_privileged(&self, username: &str) -> (r: bool)
        ensures
            r == listed(self.privileged@, username@),
    {
        is_listed(&self.privileged, username)
    }

    /// Put `virtual_path` in the queue for `downloader`, and record it for
    /// the host.
    pub fn enqueue_upload(&mut self, downloader: &str, virtual_path: &str, real_path: String, size: u64)
        ensures
            final(self).upload_queue@.len() == old(self).upload_queue@.len() + 1,
            final(self).upload_queue@.drop_last() == old(self).upload_queue@,
            final(self).upload_queue@.last().downloader@ == downloader@,
            final(self).upload_queue@.last().virtual_path@ == virtual_path@,
            final(self).upload_queue@.last().real_path@ == real_path@,
            final(self).upload_queue@.last().size == size,
            final(self).upload_events@.len() == old(self).upload_events@.len() + 1,
            final(self).upload_events@.drop_last() == old(self).upload_events@,
            final(self).upload_events@.last().username@ == downloader@,
            final(self).upload_events@.last().filename@ == virtual_path@,
            final(self).upload_events@.last().size == size,
            final(self).upload_events@.last().status is Queued,
            *final(self) == (ClientContext {
                upload_queue: final(self).upload_queue,
                upload_events: final(self).upload_events,
                ..*old(self)
            }),
    {
        self.upload_queue.push(UploadJob {
            downloader: String::from_str(downloader),
            virtual_path: String::from_str(virtual_path),
            real_path,
            size,
        });
        self.upload_events.push(UploadInfo {
            username: String::from_str(downloader),
            filename: String::from_str(virtual_path),
            size,
            status: UploadStatus::Queued,
        });
        proof {
            assert(self.upload_queue@.drop_last() =~= old(self).upload_queue@);
            assert(self.upload_events@.drop_last() =~= old(self).upload_events@);
        }
    }

    /// The upload states recorded since the last call.
    pub fn take_upload_events(&mut self) -> (events: Vec<UploadInfo>)
        ensures
            events@ == old(self).upload_events@,
            final(self).upload_events@ == Seq::<UploadInfo>::empty(),
            *final(self) == (ClientContext { upload_events: final(self).upload_events, ..*old(self) }),
    {
        let mut events: Vec<UploadInfo> = Vec::new();
        std::mem::swap(&mut events, &mut self.upload_events);
        events
    }

    /// Replace the set of people whose requests are not served, and drop
    /// what they have waiting.
    pub fn set_ignored(&mut self, users: Vec<String>)
        ensures
            final(self).ignored@ == users@,
            final(self).upload_queue@ == old(self).upload_queue@.filter(|j: UploadJob| !listed(users@, j.downloader@)),
            *final(self) == (ClientContext {
                ignored: final(self).ignored,
                upload_queue: final(self).upload_queue,
                ..*old(self)
            }),
    {
        let ghost keep = |j: UploadJob| !listed(users@, j.downloader@);
        let mut queue: Vec<UploadJob> = Vec::new();
        std::mem::swap(&mut queue, &mut self.upload_queue);
        let mut kept: Vec<UploadJob> = Vec::new();
        let mut i: usize = 0;
        proof {
            reveal(Seq::filter);
            assert(queue@.take(0).filter(keep) =~= Seq::<UploadJob>::empty());
        }
        while i < queue.len()
            invariant
                i <= queue@.len(),
                kept@ == queue@.take(i as int).filter(keep),
                keep == (|j: UploadJob| !listed(users@, j.downloader@)),
            decreases queue@.len() - i,
        {
            let ignore = is_listed(&users, queue[i].downloader.as_str());
            proof {
                reveal(Seq::filter);
                assert(queue@.take(i + 1).drop_last() =~= queue@.take(i as int));
            }
            if !ignore {
                kept.push(copy_job(&queue[i]));
            }
            i += 1;
        }
        proof {
            assert(queue@.take(i as int) =~= queue@);
        }
        self.upload_queue = kept;
        self.ignored = users;
    }

    /// Drop everything `username` has queued or been offered; whether
    /// anything was.
    pub fn release_upload_slots(&mut self, username: &str) -> (freed: bool)
        ensures
            final(self).upload_queue@ == old(self).upload_queue@.filter(|j: UploadJob| j.downloader@ != username@),
            final(self).uploads@ == old(self).uploads@.filter(|u: (u32, UploadJob)| u.1.downloader@ != username@),
            freed == (final(self).upload_queue@.len() < old(self).upload_queue@.len()
                || final(self).uploads@.len() < old(self).uploads@.len()),
            *final(self) == (ClientContext {
                upload_queue: final(self).upload_queue,
                uploads: final(self).uploads,
                ..*old(self)
            }),
            old(self).tokens_unique() ==> final(self).tokens_unique(),
    {
        let ghost keep_job = |j: UploadJob| j.downloader@ != username@;
        let ghost keep_offer = |u: (u32, UploadJob)| u.1.downloader@ != username@;
        let mut queue: Vec<UploadJob> = Vec::new();
        std::mem::swap(&mut queue, &mut self.upload_queue);
        let mut kept: Vec<UploadJob> = Vec::new();
        let mut i: usize = 0;
        proof {
            reveal(Seq::filter);
            assert(queue@.take(0).filter(keep_job) =~= Seq::<UploadJob>::empty());
        }
        while i < queue.len()
            invariant
                i <= queue@.len(),
                kept@ == queue@.take(i as int).filter(keep_job),
                keep_job == (|j: UploadJob| j.downloader@ != username@),
            decreases queue@.len() - i,
        {
            let theirs = same_text(queue[i].downloader.as_str(), username);
            proof {
                reveal(Seq::filter);
                assert(queue@.take(i + 1).drop_last() =~= queue@.take(i as int));
            }
            if !theirs {
                kept.push(copy_job(&queue[i]));
            }
            i += 1;
        }
        proof {
            assert(queue@.take(i as int) =~= queue@);
            queue@.lemma_filter_len(keep_job);
        }
        let dropped_queued = kept.len() < queue.len();
        self.upload_queue = kept;

        let mut offered: Vec<(u32, UploadJob)> = Vec::new();
        std::mem::swap(&mut offered, &mut self.uploads);
        let mut still: Vec<(u32, UploadJob)> = Vec::new();
        let mut i: usize = 0;
        proof {
            reveal(Seq::filter);
            assert(offered@.take(0).filter(keep_offer) =~= Seq::<(u32, UploadJob)>::empty());
        }
        while i < offered.len()
            invariant
                i <= offered@.len(),
                still@ == offered@.take(i as int).filter(keep_offer),
                keep_offer == (|u: (u32, UploadJob)| u.1.downloader@ != username@),
            decreases offered@.len() - i,
        {
            let theirs = same_text(offered[i].1.downloader.as_str(), username);
            proof {
                reveal(Seq::filter);
                assert(offered@.take(i + 1).drop_last() =~= offered@.take(i as int));
            }
            if !theirs {
                let token = offered[i].0;
                let job = copy_job(&offered[i].1);
                still.push((token, job));
            }
            i += 1;
        }
        proof {
            assert(offered@.take(i as int) =~= offered@);
            offered@.lemma_filter_len(keep_offer);
            if old(self).tokens_unique() {
                lemma_filter_keeps_distinct(offered@, keep_offer);
            }
        }
        let dropped_offered = still.len() < offered.len();
        self.uploads = still;
        dropped_queued || dropped_offered
    }
}

/// `i` is the first entry filed under `token`.
pub open spec fn first_at<T>(s: Seq<(u32, T)>, token: u32, i: int) -> bool {
    &&& 0 <= i < s.len()
    &&& s[i].0 == token
    &&& forall|j: int| 0 <= j < i ==> #[trigger] s[j].0 != token
}

/// The first entry filed under `token`, if any.
pub open spec fn first_token<T>(s: Seq<(u32, T)>, token: u32) -> Option<int> {
    if exists|i: int| first_at(s, token, i) {
        Some(choose|i: int| first_at(s, token, i))
    } else {
        None
    }
}

/// Find the first entry filed under `token`.
pub fn find_token<T>(v: &Vec<(u32, T)>, token: u32) -> (r: Option<usize>)
    ensures
        match r {
            Some(k) => first_at(v@, token, k as int) && first_token(v@, token) == Some(k as int),
            None => first_token(v@, token) is None,
        },
{
    let mut i: usize = 0;
    while i < v.len()
        invariant
            i <= v@.len(),
            forall|j: int| 0 <= j < i ==> #[trigger] v@[j].0 != token,
        decreases v@.len() - i,
    {
        if v[i].0 == token {
            proof {
                assert(first_at(v@, token, i as int));
                let k = choose|k: int| first_at(v@, token, k);
                assert(k == i) by {
                    if k < i {
                        assert(v@[k].0 != token);
                    }
                    if i < k {
                        assert(v@[i as int].0 != token);
                    }
                }
            }
            return Some(i);
        }
        i += 1;
    }
    proof {
        assert forall|k: int| !first_at(v@, token, k) by {
            if 0 <= k < v@.len() {
                assert(v@[k].0 != token);
            }
        }
    }
    None
}

/// The entries not filed under `token`.
pub open spec fn without_token<T>(s: Seq<(u32, T)>, token: u32) -> Seq<(u32, T)> {
    s.filter(not_token(token))
}

/// Picks the entries not filed under `token`.
pub open spec fn not_token<T>(token: u32) -> spec_fn((u32, T)) -> bool {
    |e: (u32, T)| e.0 != token
}

proof fn lemma_filter_remove<T>(s: Seq<T>, k: int, p: spec_fn(T) -> bool)
    requires
        0 <= k < s.len(),
        !p(s[k]),
    ensures
        s.remove(k).filter(p) == s.filter(p),
{
    reveal(Seq::filter);
    let a = s.take(k);
    let b = s.skip(k + 1);
    assert(s == a + seq![s[k]] + b);
    assert(s.remove(k) == a + b);
    Seq::filter_distributes_over_add(a + seq![s[k]], b, p);
    Seq::filter_distributes_over_add(a, seq![s[k]], p);
    Seq::filter_distributes_over_add(a, b, p);
    assert(seq![s[k]].filter(p) =~= Seq::<T>::empty()) by {
        assert(seq![s[k]].drop_last() =~= Seq::<T>::empty());
        assert(Seq::<T>::empty().filter(p) =~= Seq::<T>::empty());
        assert(seq![s[k]].last() == s[k]);
    }
    assert(a + Seq::<T>::empty() =~= a);
}

/// No two entries are filed under one token.
pub open spec fn tokens_distinct<T>(s: Seq<(u32, T)>) -> bool {
    forall|i: int, j: int| 0 <= i < j < s.len() ==> #[trigger] s[i].0 != #[trigger] s[j].0
}

/// Keeping only some entries keeps their tokens distinct.
pub proof fn lemma_filter_keeps_distinct<T>(s: Seq<(u32, T)>, p: spec_fn((u32, T)) -> bool)
    requires
        tokens_distinct(s),
    ensures
        tokens_distinct(s.filter(p)),
    decreases s.len(),
{
    reveal(Seq::filter);
    let f = s.filter(p);
    if s.len() > 0 {
        let d = s.drop_last();
        assert forall|i: int, j: int| 0 <= i < j < d.len() implies #[trigger] d[i].0 != #[trigger] d[j].0 by {
            assert(d[i] == s[i] && d[j] == s[j]);
        }
        lemma_filter_keeps_distinct(d, p);
        let fd = d.filter(p);
        if p(s.last()) {
            assert(f == fd.push(s.last()));
            assert forall|i: int| 0 <= i < fd.len() implies (#[trigger] fd[i]).0 != s.last().0 by {
                assert(fd.contains(fd[i]));
                d.lemma_filter_contains_rev(p, fd[i]);
                let j = choose|j: int| 0 <= j < d.len() && d[j] == fd[i];
                assert(s[j] == d[j]);
                assert(s[s.len() - 1] == s.last());
            }
            assert forall|i: int, j: int| 0 <= i < j < f.len() implies #[trigger] f[i].0 != #[trigger] f[j].0 by {
                if j < fd.len() {
                    assert(f[i] == fd[i] && f[j] == fd[j]);
                } else {
                    assert(f[i] == fd[i] && f[j] == s.last());
                }
            }
        } else {
            assert(f == fd);
        }
    }
}

proof fn lemma_filter_tokens<T>(s: Seq<(u32, T)>, token: u32)
    requires
        tokens_distinct(s),
    ensures
        tokens_distinct(without_token(s, token)),
        forall|i: int| 0 <= i < without_token(s, token).len() ==> (#[trigger] without_token(s, token)[i]).0 != token,
{
    broadcast use vstd::seq_lib::group_filter_ensures;
    lemma_filter_keeps_distinct(s, not_token::<T>(token));
    let f = without_token(s, token);
    assert forall|i: int| 0 <= i < f.len() implies (#[trigger] f[i]).0 != token by {
        assert(not_token::<T>(token)(f[i]));
    }
}

/// Serving keeps each token to one transfer: when the transfers so far are
/// filed under distinct tokens, so are they after those under `token` are
/// dropped and one is filed under it.
pub proof fn lemma_serving_keeps_tokens_distinct<T>(before: Seq<(u32, T)>, after: Seq<(u32, T)>, token: u32)
    requires
        tokens_distinct(before),
        after.len() > 0,
        after.drop_last() == without_token(before, token),
        after.last().0 == token,
    ensures
        tokens_distinct(after),
{
    lemma_filter_tokens(before, token);
    let d = after.drop_last();
    assert forall|i: int, j: int| 0 <= i < j < after.len() implies #[trigger] after[i].0 != #[trigger] after[j].0 by {
        assert(after[i] == d[i]);
        if j < d.len() {
            assert(after[j] == d[j]);
        } else {
            assert(after[j] == after.last());
        }
    }
}

/// Drop every entry filed under `token`.
pub fn drop_token<T>(v: &mut Vec<(u32, T)>, token: u32)
    ensures
        final(v)@ == without_token(old(v)@, token),
{
    let ghost keep = not_token::<T>(token);
    proof {
        reveal(Seq::filter);
    }
    loop
        invariant
            v@.filter(keep) == old(v)@.filter(keep),
            keep == not_token::<T>(token),
        ensures
            v@ == old(v)@.filter(keep),
        decreases v@.len(),
    {
        match find_token(v, token) {
            Some(k) => {
                proof {
                    lemma_filter_remove(v@, k as int, keep);
                }
                v.remove(k);
            },
            None => {
                proof {
                    assert forall|i: int| 0 <= i < v@.len() implies keep(v@[i]) by {
                        if v@[i].0 == token {
                            assert(exists|j: int| first_at(v@, token, j)) by {
                                lemma_some_first(v@, token, i);
                            }
                        }
                    }
                    lemma_filter_all(v@, keep);
                }
                break;
            },
        }
    }
}

proof fn lemma_some_first<T>(s: Seq<(u32, T)>, token: u32, i: int)
    requires
        0 <= i < s.len(),
        s[i].0 == token,
    ensures
        exists|j: int| first_at(s, token, j),
    decreases i,
{
    if exists|j: int| 0 <= j < i && s[j].0 == token {
        let j = choose|j: int| 0 <= j < i && s[j].0 == token;
        lemma_some_first(s, token, j);
    } else {
        assert(first_at(s, token, i));
    }
}

proof fn lemma_filter_all<T>(s: Seq<T>, p: spec_fn(T) -> bool)
    requires
        forall|i: int| 0 <= i < s.len() ==> p(s[i]),
    ensures
        s.filter(p) == s,
    decreases s.len(),
{
    reveal(Seq::filter);
    if s.len() > 0 {
        lemma_filter_all(s.drop_last(), p);
        assert(s.drop_last().push(s.last()) =~= s);
    }
}

/// The token after `t`, coming round to 0 after the largest.
pub open spec fn token_after(t: u32) -> u32 {
    if t == u32::MAX { 0u32 } else { (t + 1) as u32 }
}

/// The `i`th token counting on from `t`.
pub open spec fn token_plus(t: u32, i: nat) -> u32
    decreases i,
{
    if i == 0 { t } else { token_after(token_plus(t, (i - 1) as nat)) }
}

/// The first token from `t` on that no offer in `s` is filed under, looking
/// at most `fuel` tokens further.
pub open spec fn free_token<T>(s: Seq<(u32, T)>, t: u32, fuel: nat) -> u32
    decreases fuel,
{
    if fuel == 0 || first_token(s, t) is None { t } else { free_token(s, token_after(t), (fuel - 1) as nat) }
}

/// One offer: the next in line leaves the queue and is offered under the
/// first token from the counter on that no offer holds; the counter moves
/// past it.
pub open spec fn offer_step(queue: Seq<UploadJob>, uploads: Seq<(u32, UploadJob)>, next: u32, privileged: Seq<String>)
    -> (Seq<UploadJob>, Seq<(u32, UploadJob)>, u32) {
    let k = next_in_line(queue, privileged);
    let token = free_token(uploads, next, uploads.len());
    (queue.remove(k), uploads.push((token, queue[k])), token_after(token))
}

proof fn lemma_token_plus_value(t: u32, i: nat)
    requires
        i < 0x1_0000_0000,
    ensures
        token_plus(t, i) as int == if t + i < 0x1_0000_0000 { t + i } else { t + i - 0x1_0000_0000 },
    decreases i,
{
    if i > 0 {
        lemma_token_plus_value(t, (i - 1) as nat);
    }
}

proof fn lemma_token_plus_shift(t: u32, i: nat)
    ensures
        token_plus(token_after(t), i) == token_plus(t, i + 1),
    decreases i,
{
    if i > 0 {
        lemma_token_plus_shift(t, (i - 1) as nat);
        assert(token_plus(token_after(t), i) == token_after(token_plus(token_after(t), (i - 1) as nat)));
        assert(token_plus(t, i + 1) == token_after(token_plus(t, i)));
    } else {
        assert(token_plus(t, 1) == token_after(token_plus(t, 0)));
    }
}

/// Where the search ends on a token in use, every token it passed was in
/// use too.
proof fn lemma_free_token_in_use<T>(s: Seq<(u32, T)>, t: u32, f: nat)
    requires
        first_token(s, free_token(s, t, f)) is Some,
    ensures
        forall|i: nat| i <= f ==> first_token(s, #[trigger] token_plus(t, i)) is Some,
    decreases f,
{
    if f > 0 && first_token(s, t) is Some {
        lemma_free_token_in_use(s, token_after(t), (f - 1) as nat);
        assert forall|i: nat| i <= f implies first_token(s, #[trigger] token_plus(t, i)) is Some by {
            if i > 0 {
                lemma_token_plus_shift(t, (i - 1) as nat);
                assert(token_plus(token_after(t), (i - 1) as nat) == token_plus(t, i));
            }
        }
    }
}

/// Looking as many tokens on as there are offers always finds a free one,
/// while there are fewer offers than tokens: the tokens looked at are all
/// different, and the offers cannot hold more tokens than there are offers.
pub proof fn lemma_free_token_is_free<T>(s: Seq<(u32, T)>, t: u32)
    requires
        s.len() < 0x1_0000_0000,
    ensures
        first_token(s, free_token(s, t, s.len())) is None,
{
    broadcast use vstd::set::group_set_axioms, vstd::seq_lib::seq_to_set_is_finite;
    let m = s.len();
    if first_token(s, free_token(s, t, m)) is Some {
        lemma_free_token_in_use(s, t, m);
        let c = Seq::new(m + 1, |i: int| token_plus(t, i as nat));
        let toks = Seq::new(m, |i: int| s[i].0);
        assert forall|i: int, j: int| 0 <= i < c.len() && 0 <= j < c.len() && i != j implies c[i] != c[j] by {
            lemma_token_plus_value(t, i as nat);
            lemma_token_plus_value(t, j as nat);
        }
        assert(c.no_duplicates());
        c.unique_seq_to_set();
        toks.lemma_cardinality_of_set();
        assert forall|x: u32| c.to_set().contains(x) implies toks.to_set().contains(x) by {
            let i = choose|i: int| 0 <= i < c.len() && c[i] == x;
            assert(first_token(s, token_plus(t, i as nat)) is Some);
            let k = choose|k: int| first_at(s, x, k);
            assert(toks[k] == x);
        }
        vstd::set_lib::lemma_len_subset(c.to_set(), toks.to_set());
        assert(false);
    }
}

/// Offering keeps the offers' tokens distinct, while there are fewer
/// offers than tokens.
pub proof fn lemma_offer_steps_distinct(queue: Seq<UploadJob>, uploads: Seq<(u32, UploadJob)>, next: u32, privileged: Seq<String>, n: nat)
    requires
        n <= queue.len(),
        tokens_distinct(uploads),
        uploads.len() + n <= u32::MAX,
    ensures
        tokens_distinct(offer_steps(queue, uploads, next, privileged, n).1),
    decreases n,
{
    if n > 0 {
        lemma_offer_steps_distinct(queue, uploads, next, privileged, (n - 1) as nat);
        lemma_offer_steps_len(queue, uploads, next, privileged, (n - 1) as nat);
        let (q, u, t) = offer_steps(queue, uploads, next, privileged, (n - 1) as nat);
        let token = free_token(u, t, u.len());
        lemma_free_token_is_free(u, t);
        let u2 = offer_step(q, u, t, privileged).1;
        assert forall|i: int, j: int| 0 <= i < j < u2.len() implies #[trigger] u2[i].0 != #[trigger] u2[j].0 by {
            if j == u.len() {
                assert(u2[i] == u[i]);
                if u[i].0 == token {
                    lemma_some_first(u, token, i);
                }
            } else {
                assert(u2[i] == u[i] && u2[j] == u[j]);
            }
        }
    }
}

/// `n` offers, one after another.
pub open spec fn offer_steps(queue: Seq<UploadJob>, uploads: Seq<(u32, UploadJob)>, next: u32, privileged: Seq<String>, n: nat)
    -> (Seq<UploadJob>, Seq<(u32, UploadJob)>, u32)
    decreases n,
{
    if n == 0 {
        (queue, uploads, next)
    } else {
        let (q, u, t) = offer_steps(queue, uploads, next, privileged, (n - 1) as nat);
        offer_step(q, u, t, privileged)
    }
}

/// Each offer takes one job from the queue to the offers.
pub proof fn lemma_offer_steps_len(queue: Seq<UploadJob>, uploads: Seq<(u32, UploadJob)>, next: u32, privileged: Seq<String>, n: nat)
    requires
        n <= queue.len(),
    ensures
        offer_steps(queue, uploads, next, privileged, n).0.len() == queue.len() - n,
        offer_steps(queue, uploads, next, privileged, n).1.len() == uploads.len() + n,
    decreases n,
{
    if n > 0 {
        lemma_offer_steps_len(queue, uploads, next, privileged, (n - 1) as nat);
        let (q, u, t) = offer_steps(queue, uploads, next, privileged, (n - 1) as nat);
        lemma_next_in_line_bound(q, privileged);
    }
}

proof fn lemma_next_in_line_bound(queue: Seq<UploadJob>, privileged: Seq<String>)
    requires
        queue.len() > 0,
    ensures
        0 <= next_in_line(queue, privileged) < queue.len(),
{
}

/// Offers only move jobs: when neither the queue nor the offers hold a job
/// for `who`, neither does after offering.
pub proof fn lemma_offer_steps_exclude(queue: Seq<UploadJob>, uploads: Seq<(u32, UploadJob)>, next: u32, privileged: Seq<String>, n: nat, who: Seq<char>)
    requires
        n <= queue.len(),
        forall|i: int| 0 <= i < queue.len() ==> (#[trigger] queue[i]).downloader@ != who,
        forall|i: int| 0 <= i < uploads.len() ==> (#[trigger] uploads[i]).1.downloader@ != who,
    ensures
        ({
            let (q, u, t) = offer_steps(queue, uploads, next, privileged, n);
            &&& forall|i: int| 0 <= i < q.len() ==> (#[trigger] q[i]).downloader@ != who
            &&& forall|i: int| 0 <= i < u.len() ==> (#[trigger] u[i]).1.downloader@ != who
        }),
    decreases n,
{
    if n > 0 {
        lemma_offer_steps_exclude(queue, uploads, next, privileged, (n - 1) as nat, who);
        lemma_offer_steps_len(queue, uploads, next, privileged, (n - 1) as nat);
        let (q, u, t) = offer_steps(queue, uploads, next, privileged, (n - 1) as nat);
        lemma_next_in_line_bound(q, privileged);
        let k = next_in_line(q, privileged);
        let q2 = q.remove(k);
        let u2 = u.push((t, q[k]));
        assert forall|i: int| 0 <= i < q2.len() implies (#[trigger] q2[i]).downloader@ != who by {
            if i < k {
                assert(q2[i] == q[i]);
            } else {
                assert(q2[i] == q[i + 1]);
            }
        }
        assert forall|i: int| 0 <= i < u2.len() implies (#[trigger] u2[i]).1.downloader@ != who by {
            if i < u.len() {
                assert(u2[i] == u[i]);
            } else {
                assert(u2[i] == (t, q[k]));
            }
        }
    }
}

/// How many offers filling the free slots makes.
pub open spec fn offers_owed(busy: nat, slots: nat, waiting: nat) -> nat {
    if busy >= slots {
        0
    } else if slots - busy < waiting {
        (slots - busy) as nat
    } else {
        waiting
    }
}

impl ClientContext {
    /// Where the next offer comes from.
    fn next_in_line_index(&self) -> (k: usize)
        requires
            self.upload_queue@.len() > 0,
        ensures
            k == next_in_line(self.upload_queue@, self.privileged@),
            k < self.upload_queue@.len(),
    {
        let mut i: usize = 0;
        while i < self.upload_queue.len()
            invariant
                i <= self.upload_queue@.len(),
                forall|j: int| 0 <= j < i ==> !listed(self.privileged@, #[trigger] self.upload_queue@[j].downloader@),
            decreases self.upload_queue@.len() - i,
        {
            if is_listed(&self.privileged, self.upload_queue[i].downloader.as_str()) {
                proof {
                    let q = self.upload_queue@;
                    let p = self.privileged@;
                    assert(first_privileged(q, p, i as int));
                    let k = choose|k: int| first_privileged(q, p, k);
                    assert(k == i) by {
                        if k < i {
                            assert(!listed(p, q[k].downloader@));
                        }
                        if i < k {
                            assert(!listed(p, q[i as int].downloader@));
                        }
                    }
                }
                return i;
            }
            i += 1;
        }
        proof {
            assert forall|k: int| !first_privileged(self.upload_queue@, self.privileged@, k) by {
                if 0 <= k < self.upload_queue@.len() {
                    assert(!listed(self.privileged@, self.upload_queue@[k].downloader@));
                }
            }
        }
        0
    }

    /// Offer the next in line: privileged peers first, then first come first.
    fn offer_next(&mut self) -> (offer: UploadOffer)
        requires
            old(self).upload_queue@.len() > 0,
        ensures
            (final(self).upload_queue@, final(self).uploads@, final(self).next_token)
                == offer_step(old(self).upload_queue@, old(self).uploads@, old(self).next_token, old(self).privileged@),
            offer.token == final(self).uploads@.last().0,
            offer.requester_key == final(self).uploads@.last().1.downloader,
            offer.virtual_path == final(self).uploads@.last().1.virtual_path,
            offer.size == final(self).uploads@.last().1.size,
            *final(self) == (ClientContext {
                upload_queue: final(self).upload_queue,
                uploads: final(self).uploads,
                next_token: final(self).next_token,
                ..*old(self)
            }),
    {
        let k = self.next_in_line_index();
        let job = self.upload_queue.remove(k);
        let ghost u = self.uploads@;
        let mut token = self.next_token;
        let mut tries: usize = 0;
        while tries < self.uploads.len() && find_token(&self.uploads, token).is_some()
            invariant
                self.uploads@ == u,
                tries <= u.len(),
                free_token(u, token, (u.len() - tries) as nat) == free_token(u, old(self).next_token, u.len()),
            decreases u.len() - tries,
        {
            token = if token == u32::MAX { 0 } else { token + 1 };
            tries += 1;
        }
        self.next_token = if token == u32::MAX { 0 } else { token + 1 };
        let offer = UploadOffer {
            requester_key: job.downloader.clone(),
            token,
            virtual_path: job.virtual_path.clone(),
            size: job.size,
        };
        self.uploads.push((token, job));
        offer
    }

    /// How many uploads are streaming.
    fn streaming(&self) -> (n: usize)
        ensures
            n == streaming_count(self.active_uploads@),
    {
        let mut n: usize = 0;
        let mut i: usize = 0;
        while i < self.active_uploads.len()
            invariant
                i <= self.active_uploads@.len(),
                n == streaming_count(self.active_uploads@.take(i as int)),
                n <= i,
            decreases self.active_uploads@.len() - i,
        {
            proof {
                assert(self.active_uploads@.take(i + 1).drop_last() =~= self.active_uploads@.take(i as int));
            }
            if matches!(self.active_uploads[i].1.status, UploadStatus::InProgress) {
                n += 1;
            }
            i += 1;
        }
        proof {
            assert(self.active_uploads@.take(i as int) =~= self.active_uploads@);
        }
        n
    }

    /// Fill every free upload slot from the queue, and return the offers to
    /// send. A slot is taken by each file offered and by each streaming.
    pub fn pump_uploads(&mut self) -> (offers: Vec<UploadOffer>)
        ensures
            ({
                let busy = old(self).uploads@.len() + streaming_count(old(self).active_uploads@);
                let n = offers_owed(busy, old(self).upload_slots as nat, old(self).upload_queue@.len());
                &&& offers@.len() == n
                &&& (final(self).upload_queue@, final(self).uploads@, final(self).next_token)
                    == offer_steps(old(self).upload_queue@, old(self).uploads@, old(self).next_token, old(self).privileged@, n)
                &&& forall|i: int| 0 <= i < n ==> {
                    let u = #[trigger] final(self).uploads@[old(self).uploads@.len() + i];
                    &&& offers@[i].token == u.0
                    &&& offers@[i].requester_key == u.1.downloader
                    &&& offers@[i].virtual_path == u.1.virtual_path
                    &&& offers@[i].size == u.1.size
                }
            }),
            *final(self) == (ClientContext {
                upload_queue: final(self).upload_queue,
                uploads: final(self).uploads,
                next_token: final(self).next_token,
                ..*old(self)
            }),
            old(self).tokens_unique() && old(self).token_room() ==> final(self).tokens_unique(),
            ({
                let holding = old(self).uploads@.len()
                    + old(self).active_uploads@.filter(|e: (u32, ActiveUpload)| e.1.status is InProgress).len();
                &&& holding >= old(self).upload_slots ==> offers@.len() == 0 && final(self).uploads@ == old(self).uploads@
                &&& holding < old(self).upload_slots ==> final(self).uploads@.len()
                    + old(self).active_uploads@.filter(|e: (u32, ActiveUpload)| e.1.status is InProgress).len() <= old(self).upload_slots
                &&& holding < old(self).upload_slots ==> offers@.len() == if old(self).upload_slots - holding < old(self).upload_queue@.len() {
                    (old(self).upload_slots - holding) as nat } else { old(self).upload_queue@.len() }
            }),
    {
        proof {
            lemma_pump_fills_free_slots(self.upload_queue@, self.uploads@, self.active_uploads@, self.next_token,
                self.privileged@, self.upload_slots as nat);
        }
        let busy0 = self.uploads.len() as u128 + self.streaming() as u128;
        let ghost q0 = self.upload_queue@;
        let ghost u0 = self.uploads@;
        let ghost t0 = self.next_token;
        let mut offers: Vec<UploadOffer> = Vec::new();
        let mut i: usize = 0;
        while busy0 + (i as u128) < self.upload_slots as u128 && self.upload_queue.len() > 0
            invariant
                busy0 == u0.len() + streaming_count(old(self).active_uploads@),
                busy0 <= 2 * (usize::MAX as u128),
                i <= offers_owed(busy0 as nat, old(self).upload_slots as nat, q0.len()),
                i <= q0.len(),
                self.upload_queue@.len() == q0.len() - i,
                self.uploads@.len() == u0.len() + i,
                offers@.len() == i,
                (self.upload_queue@, self.uploads@, self.next_token) == offer_steps(q0, u0, t0, old(self).privileged@, i as nat),
                forall|j: int| 0 <= j < i ==> {
                    let u = #[trigger] self.uploads@[u0.len() + j];
                    &&& offers@[j].token == u.0
                    &&& offers@[j].requester_key == u.1.downloader
                    &&& offers@[j].virtual_path == u.1.virtual_path
                    &&& offers@[j].size == u.1.size
                },
                *self == (ClientContext {
                    upload_queue: self.upload_queue,
                    uploads: self.uploads,
                    next_token: self.next_token,
                    ..*old(self)
                }),
            decreases q0.len() - i,
        {
            let ghost before = self.uploads@;
            let offer = self.offer_next();
            offers.push(offer);
            proof {
                assert forall|j: int| 0 <= j < i + 1 implies {
                    let u = #[trigger] self.uploads@[u0.len() + j];
                    &&& offers@[j].token == u.0
                    &&& offers@[j].requester_key == u.1.downloader
                    &&& offers@[j].virtual_path == u.1.virtual_path
                    &&& offers@[j].size == u.1.size
                } by {
                    if j < i {
                        assert(self.uploads@[u0.len() + j] == before[u0.len() + j]);
                    }
                }
            }
            i += 1;
        }
        proof {
            if old(self).tokens_unique() && old(self).token_room() {
                lemma_offer_steps_distinct(q0, u0, t0, old(self).privileged@, i as nat);
            }
        }
        offers
    }

    /// Take the offer filed under `token` to stream it: no offer is left
    /// under the token, and it is recorded as streaming, in place of
    /// whatever was recorded under the token before.
    pub fn begin_serve(&mut self, token: u32) -> (job: Option<UploadJob>)
        ensures
            match first_token(old(self).uploads@, token) {
                None => job is None && *final(self) == *old(self),
                Some(k) => job == Some(old(self).uploads@[k].1)
                    && final(self).uploads@ == without_token(old(self).uploads@, token)
                    && final(self).active_uploads@.len() > 0
                    && final(self).active_uploads@.drop_last() == without_token(old(self).active_uploads@, token)
                    && final(self).active_uploads@.last().0 == token
                    && final(self).active_uploads@.last().1.username == old(self).uploads@[k].1.downloader
                    && final(self).active_uploads@.last().1.filename == old(self).uploads@[k].1.virtual_path
                    && final(self).active_uploads@.last().1.size == old(self).uploads@[k].1.size
                    && final(self).active_uploads@.last().1.status is InProgress
                    && *final(self) == (ClientContext {
                        uploads: final(self).uploads,
                        active_uploads: final(self).active_uploads,
                        ..*old(self)
                    }),
            },
            old(self).tokens_unique() ==> final(self).tokens_unique(),
    {
        let k = match find_token(&self.uploads, token) {
            Some(k) => k,
            None => return None,
        };
        let (_, job) = self.uploads.remove(k);
        proof {
            lemma_filter_remove(old(self).uploads@, k as int, not_token::<UploadJob>(token));
        }
        drop_token(&mut self.uploads, token);
        let ghost before = self.active_uploads@;
        drop_token(&mut self.active_uploads, token);
        let ghost dropped = self.active_uploads@;
        self.active_uploads.push((token, ActiveUpload {
            username: job.downloader.clone(),
            filename: job.virtual_path.clone(),
            size: job.size,
            status: UploadStatus::InProgress,
        }));
        proof {
            assert(self.active_uploads@.drop_last() =~= dropped);
            if old(self).tokens_unique() {
                lemma_filter_tokens(old(self).uploads@, token);
                lemma_serving_keeps_tokens_distinct(old(self).active_uploads@, self.active_uploads@, token);
            }
        }
        Some(job)
    }

    /// Record how the stream filed under `token` ended; a speed, when there
    /// is one, becomes our last upload speed and is returned to report.
    pub fn finish_serve(&mut self, token: u32, status: UploadStatus, speed: Option<u32>) -> (report: Option<u32>)
        ensures
            match first_token(old(self).active_uploads@, token) {
                None => report is None && *final(self) == *old(self),
                Some(k) => report == speed
                    && final(self).active_uploads@.len() == old(self).active_uploads@.len()
                    && (forall|j: int| 0 <= j < old(self).active_uploads@.len() && j != k
                        ==> #[trigger] final(self).active_uploads@[j] == old(self).active_uploads@[j])
                    && final(self).active_uploads@[k].0 == token
                    && final(self).active_uploads@[k].1 == (ActiveUpload { status: status, ..old(self).active_uploads@[k].1 })
                    && final(self).last_upload_speed == (match speed { Some(s) => s, None => old(self).last_upload_speed })
                    && *final(self) == (ClientContext {
                        active_uploads: final(self).active_uploads,
                        last_upload_speed: final(self).last_upload_speed,
                        ..*old(self)
                    }),
            },
            old(self).tokens_unique() ==> final(self).tokens_unique(),
    {
        let k = match find_token(&self.active_uploads, token) {
            Some(k) => k,
            None => return None,
        };
        let updated = {
            let old_upload = &self.active_uploads[k].1;
            ActiveUpload {
                username: old_upload.username.clone(),
                filename: old_upload.filename.clone(),
                size: old_upload.size,
                status,
            }
        };
        self.active_uploads.set(k, (token, updated));
        proof {
            let a = self.active_uploads@;
            let b = old(self).active_uploads@;
            assert forall|i: int, j: int| 0 <= i < j < a.len() && tokens_distinct(b) implies #[trigger] a[i].0 != #[trigger] a[j].0 by {
                assert(a[i].0 == b[i].0 && a[j].0 == b[j].0);
            }
        }
        match speed {
            Some(s) => {
                self.last_upload_speed = s;
                Some(s)
            },
            None => None,
        }
    }

    /// Fail and forget every download from `username` (of `filename`, when
    /// one is named), recording each as failed with `reason`, or with a
    /// default when there is none.
    pub fn fail_downloads(&mut self, username: &str, filename: Option<&str>, reason: Option<&str>)
        ensures
            ({
                let gone = old(self).downloads@.filter(failing(username@, opt_text(filename)));
                let words = failure_words(opt_text(reason));
                &&& final(self).downloads@ == old(self).downloads@.filter(unaffected(username@, opt_text(filename)))
                &&& final(self).download_events@.len() == old(self).download_events@.len() + gone.len()
                &&& final(self).download_events@.take(old(self).download_events@.len() as int) == old(self).download_events@
                &&& forall|i: int| 0 <= i < gone.len() ==> {
                    let e = #[trigger] final(self).download_events@[old(self).download_events@.len() + i];
                    &&& e.0 == gone[i].token
                    &&& e.1 matches DownloadStatus::Failed(Some(w)) && w@ == words
                }
            }),
            *final(self) == (ClientContext {
                downloads: final(self).downloads,
                download_events: final(self).download_events,
                ..*old(self)
            }),
    {
        let ghost which = failing(username@, opt_text(filename));
        let ghost not_which = unaffected(username@, opt_text(filename));
        let ghost e0 = self.download_events@;
        let mut all: Vec<DownloadEntry> = Vec::new();
        std::mem::swap(&mut all, &mut self.downloads);
        let mut kept: Vec<DownloadEntry> = Vec::new();
        let mut i: usize = 0;
        proof {
            reveal(Seq::filter);
            assert(all@.take(0).filter(which) =~= Seq::<DownloadEntry>::empty());
            assert(all@.take(0).filter(not_which) =~= Seq::<DownloadEntry>::empty());
        }
        while i < all.len()
            invariant
                i <= all@.len(),
                which == failing(username@, opt_text(filename)),
                not_which == unaffected(username@, opt_text(filename)),
                *self == (ClientContext {
                    downloads: self.downloads,
                    download_events: self.download_events,
                    ..*old(self)
                }),
                kept@ == all@.take(i as int).filter(not_which),
                self.download_events@.len() == e0.len() + all@.take(i as int).filter(which).len(),
                self.download_events@.take(e0.len() as int) == e0,
                forall|j: int| 0 <= j < all@.take(i as int).filter(which).len() ==> {
                    let e = #[trigger] self.download_events@[e0.len() + j];
                    &&& e.0 == all@.take(i as int).filter(which)[j].token
                    &&& e.1 matches DownloadStatus::Failed(Some(w)) && w@ == failure_words(opt_text(reason))
                },
            decreases all@.len() - i,
        {
            let d = &all[i];
            let same_user = same_text(d.username.as_str(), username);
            let same_file = match filename {
                Some(f) => same_text(d.filename.as_str(), f),
                None => true,
            };
            let ghost before = self.download_events@;
            proof {
                reveal(Seq::filter);
                assert(all@.take(i + 1).drop_last() =~= all@.take(i as int));
                assert(which(all@[i as int]) == (same_user && same_file));
                assert(not_which(all@[i as int]) == !(same_user && same_file));
            }
            if same_user && same_file {
                let words = match reason {
                    Some(r) => String::from_str(r),
                    None => String::from_str("The upload failed on the other side"),
                };
                self.download_events.push((d.token, DownloadStatus::Failed(Some(words))));
                proof {
                    assert(self.download_events@.take(e0.len() as int) =~= e0) by {
                        assert(before.take(e0.len() as int) == e0);
                    }
                    let g = all@.take(i + 1).filter(which);
                    assert(g == all@.take(i as int).filter(which).push(all@[i as int]));
                    assert forall|j: int| 0 <= j < g.len() implies {
                        let e = #[trigger] self.download_events@[e0.len() + j];
                        &&& e.0 == g[j].token
                        &&& e.1 matches DownloadStatus::Failed(Some(w)) && w@ == failure_words(opt_text(reason))
                    } by {
                        if j < g.len() - 1 {
                            assert(self.download_events@[e0.len() + j] == before[e0.len() + j]);
                        }
                    }
                }
            } else {
                kept.push(DownloadEntry {
                    token: d.token,
                    username: d.username.clone(),
                    filename: d.filename.clone(),
                    status: copy_download_status(&d.status),
                });
            }
            i += 1;
        }
        proof {
            assert(all@.take(i as int) =~= all@);
        }
        self.downloads = kept;
    }
}

} // verus!
