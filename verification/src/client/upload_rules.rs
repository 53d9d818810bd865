//! Whether a peer's request to queue one of our files is taken, and if not,
//! the words its client is sent back.
//!
//! The words are the protocol's own. Clients match on them, so they are
//! spelled exactly as the protocol document lists them, full stops included.

use vstd::prelude::*;
use crate::client::{ClientContext, UploadJob, ActiveUpload, SharedFile, share_for, listed, is_listed};
use crate::message::text::same_text;
use crate::types::UploadStatus;

verus! {

/// The file is not shared, or not shared with this person.
pub const FILE_NOT_SHARED: &'static str = "File not shared.";
/// The person has as many files waiting as we allow one person.
pub const TOO_MANY_FILES: &'static str = "Too many files";
/// The person has as much data waiting as we allow one person.
pub const TOO_MANY_MEGABYTES: &'static str = "Too many megabytes";
/// We are closing, so nothing waiting will be served.
pub const PENDING_SHUTDOWN: &'static str = "Pending shutdown.";

/// How much one person may have waiting in our queue at once. `None` is no
/// limit. Friends are not held to either.
#[derive(Debug, Clone, Copy, Default, PartialEq, Eq)]
pub struct QueueLimits {
    pub files: Option<u32>,
    pub megabytes: Option<u64>,
}

/// What becomes of a request to queue a file.
#[derive(Debug, Clone, PartialEq, Eq)]
pub enum Verdict {
    /// Take it: the file is here, and this person may have it.
    Queue { real_path: String, size: u64 },
    /// They already have it waiting or on its way. Clients ask again while
    /// they wait, and asking again must not cost them their place.
    AlreadyWaiting,
    /// Refuse it, saying this.
    Deny(&'static str),
}

/// A verdict as a value.
pub enum VerdictView {
    Queue { real_path: Seq<char>, size: u64 },
    AlreadyWaiting,
    Deny(Seq<char>),
}

impl View for Verdict {
    type V = VerdictView;

    open spec fn view(&self) -> VerdictView {
        match self {
            Verdict::Queue { real_path, size } => VerdictView::Queue { real_path: real_path@, size: *size },
            Verdict::AlreadyWaiting => VerdictView::AlreadyWaiting,
            Verdict::Deny(words) => VerdictView::Deny(words@),
        }
    }
}

/// Whether `requester` has `filename` waiting in the queue.
pub open spec fn queued_has(queue: Seq<UploadJob>, requester: Seq<char>, filename: Seq<char>) -> bool {
    exists|i: int| 0 <= i < queue.len() && #[trigger] queue[i].downloader@ == requester && queue[i].virtual_path@ == filename
}

/// Whether `requester` has been offered `filename`.
pub open spec fn offered_has(uploads: Seq<(u32, UploadJob)>, requester: Seq<char>, filename: Seq<char>) -> bool {
    exists|i: int| 0 <= i < uploads.len() && #[trigger] uploads[i].1.downloader@ == requester && uploads[i].1.virtual_path@ == filename
}

/// Whether `filename` is streaming to `requester`.
pub open spec fn streaming_has(active: Seq<(u32, ActiveUpload)>, requester: Seq<char>, filename: Seq<char>) -> bool {
    exists|i: int| 0 <= i < active.len() && #[trigger] active[i].1.username@ == requester && active[i].1.filename@ == filename
        && active[i].1.status is InProgress
}

/// How many files `who` has waiting in the queue.
pub open spec fn queued_files(queue: Seq<UploadJob>, who: Seq<char>) -> nat
    decreases queue.len(),
{
    if queue.len() == 0 {
        0
    } else {
        queued_files(queue.drop_last(), who) + if queue.last().downloader@ == who { 1nat } else { 0nat }
    }
}

/// How many bytes `who` has waiting in the queue.
pub open spec fn queued_bytes(queue: Seq<UploadJob>, who: Seq<char>) -> nat
    decreases queue.len(),
{
    if queue.len() == 0 {
        0
    } else {
        queued_bytes(queue.drop_last(), who) + if queue.last().downloader@ == who { queue.last().size as nat } else { 0nat }
    }
}

impl ClientContext {
    /// Whether `requester` already has `filename` queued, offered, or
    /// streaming.
    pub open spec fn waiting_or_moving(&self, requester: Seq<char>, filename: Seq<char>) -> bool {
        ||| queued_has(self.upload_queue@, requester, filename)
        ||| offered_has(self.uploads@, requester, filename)
        ||| streaming_has(self.active_uploads@, requester, filename)
    }

    /// What becomes of a request from `requester` to queue `filename`.
    pub open spec fn verdict_for(&self, requester: Seq<char>, filename: Seq<char>) -> VerdictView {
        let friend = listed(self.friends@, requester);
        if self.shutting_down {
            VerdictView::Deny(PENDING_SHUTDOWN@)
        } else {
            match share_for(self.shares.files@, filename, friend) {
                None => VerdictView::Deny(FILE_NOT_SHARED@),
                Some(file) => {
                    let files = queued_files(self.upload_queue@, requester);
                    let bytes = queued_bytes(self.upload_queue@, requester);
                    if self.waiting_or_moving(requester, filename) {
                        VerdictView::AlreadyWaiting
                    } else if !friend && (self.queue_limits.files matches Some(most) && files + 1 > most) {
                        VerdictView::Deny(TOO_MANY_FILES@)
                    } else if !friend && (self.queue_limits.megabytes matches Some(most) && bytes + file.size
                        > most * 1024 * 1024) {
                        VerdictView::Deny(TOO_MANY_MEGABYTES@)
                    } else {
                        VerdictView::Queue { real_path: file.real_path@, size: file.size }
                    }
                },
            }
        }
    }

    /// Decide a request from `requester` to queue `filename`.
    ///
    /// In this order, as Nicotine+ decides it: a client that is closing
    /// takes nothing; a file that is not shared with this person does not
    /// exist as far as they are concerned; a repeat of something already
    /// waiting changes nothing; and only then are the per-person limits
    /// counted, because a refusal for a file we would never have served
    /// anyway should say so.
    pub fn judge_queue_request(&self, requester: &str, filename: &str) -> (v: Verdict)
        ensures
            v@ == self.verdict_for(requester@, filename@),
    {
        if self.shutting_down {
            return Verdict::Deny(PENDING_SHUTDOWN);
        }
        let friend = self.is_friend(requester);
        let file: &SharedFile = match self.shares.get_for(filename, friend) {
            Some(file) => file,
            None => return Verdict::Deny(FILE_NOT_SHARED),
        };
        if self.has_waiting_or_moving(requester, filename) {
            return Verdict::AlreadyWaiting;
        }
        if !friend {
            let (files, bytes) = self.queued_by(requester);
            match self.queue_limits.files {
                Some(most) => {
                    if files >= most as u64 {
                        return Verdict::Deny(TOO_MANY_FILES);
                    }
                },
                None => {},
            }
            match self.queue_limits.megabytes {
                Some(most) => {
                    let limit = most as u128 * 1024 * 1024;
                    let over = match bytes.checked_add(file.size as u128) {
                        Some(total) => total > limit,
                        None => true,
                    };
                    if over {
                        return Verdict::Deny(TOO_MANY_MEGABYTES);
                    }
                },
                None => {},
            }
        }
        Verdict::Queue { real_path: file.real_path.clone(), size: file.size }
    }

    /// Whether `requester` already has `filename` queued, offered, or
    /// streaming.
    fn has_waiting_or_moving(&self, requester: &str, filename: &str) -> (r: bool)
        ensures
            r == self.waiting_or_moving(requester@, filename@),
    {
        let mut i: usize = 0;
        while i < self.upload_queue.len()
            invariant
                i <= self.upload_queue@.len(),
                forall|j: int| 0 <= j < i ==> !(#[trigger] self.upload_queue@[j].downloader@ == requester@
                    && self.upload_queue@[j].virtual_path@ == filename@),
            decreases self.upload_queue@.len() - i,
        {
            let job = &self.upload_queue[i];
            if same_text(job.downloader.as_str(), requester) && same_text(job.virtual_path.as_str(), filename) {
                return true;
            }
            i += 1;
        }
        let mut i: usize = 0;
        while i < self.uploads.len()
            invariant
                i <= self.uploads@.len(),
                forall|j: int| 0 <= j < i ==> !(#[trigger] self.uploads@[j].1.downloader@ == requester@
                    && self.uploads@[j].1.virtual_path@ == filename@),
            decreases self.uploads@.len() - i,
        {
            let job = &self.uploads[i].1;
            if same_text(job.downloader.as_str(), requester) && same_text(job.virtual_path.as_str(), filename) {
                return true;
            }
            i += 1;
        }
        let mut i: usize = 0;
        while i < self.active_uploads.len()
            invariant
                i <= self.active_uploads@.len(),
                forall|j: int| 0 <= j < i ==> !(#[trigger] self.active_uploads@[j].1.username@ == requester@
                    && self.active_uploads@[j].1.filename@ == filename@ && self.active_uploads@[j].1.status is InProgress),
            decreases self.active_uploads@.len() - i,
        {
            let upload = &self.active_uploads[i].1;
            if same_text(upload.username.as_str(), requester) && same_text(upload.filename.as_str(), filename)
                && matches!(upload.status, UploadStatus::InProgress) {
                return true;
            }
            i += 1;
        }
        false
    }

    /// Files and bytes `requester` has waiting in the queue.
    fn queued_by(&self, requester: &str) -> (r: (u64, u128))
        ensures
            r.0 == queued_files(self.upload_queue@, requester@),
            r.1 == queued_bytes(self.upload_queue@, requester@),
    {
        let mut files: u64 = 0;
        let mut bytes: u128 = 0;
        let mut i: usize = 0;
        while i < self.upload_queue.len()
            invariant
                i <= self.upload_queue@.len(),
                files == queued_files(self.upload_queue@.take(i as int), requester@),
                bytes == queued_bytes(self.upload_queue@.take(i as int), requester@),
                files <= i,
                bytes <= i * 0xFFFF_FFFF_FFFF_FFFFnat,
            decreases self.upload_queue@.len() - i,
        {
            let job = &self.upload_queue[i];
            proof {
                let t = self.upload_queue@.take(i + 1);
                assert(t.drop_last() =~= self.upload_queue@.take(i as int));
                assert(i < usize::MAX);
                assert(i * 0xFFFF_FFFF_FFFF_FFFFnat + 0xFFFF_FFFF_FFFF_FFFFnat == (i + 1) * 0xFFFF_FFFF_FFFF_FFFFnat) by (nonlinear_arith);
                assert((i + 1) * 0xFFFF_FFFF_FFFF_FFFFnat <= 0x1_0000_0000_0000_0000nat * 0xFFFF_FFFF_FFFF_FFFFnat) by (nonlinear_arith)
                    requires i + 1 <= 0x1_0000_0000_0000_0000nat;
            }
            if same_text(job.downloader.as_str(), requester) {
                files = files + 1;
                bytes = bytes + job.size as u128;
            }
            i += 1;
        }
        proof {
            assert(self.upload_queue@.take(i as int) =~= self.upload_queue@);
        }
        (files, bytes)
    }

    /// Replace the set of people counted as friends: they may have what is
    /// shared with friends only, and are not held to the queue limits.
    pub fn set_friends(&mut self, users: Vec<String>)
        ensures
            final(self).friends@ == users@,
            *final(self) == (ClientContext { friends: final(self).friends, ..*old(self) }),
    {
        self.friends = users;
    }

    pub fn is_friend(&self, username: &str) -> (r: bool)
        ensures
            r == listed(self.friends@, username@),
    {
        is_listed(&self.friends, username)
    }

    pub fn set_queue_limits(&mut self, limits: QueueLimits)
        ensures
            *final(self) == (ClientContext { queue_limits: limits, ..*old(self) }),
    {
        self.queue_limits = limits;
    }

    /// Stop taking requests, and empty the queue, returning each
    /// `(downloader, filename)` that was waiting so they can be told.
    #[verifier::spinoff_prover]
    pub fn begin_shutdown(&mut self) -> (waiting: Vec<(String, String)>)
        ensures
            final(self).shutting_down,
            final(self).upload_queue@ == Seq::<UploadJob>::empty(),
            *final(self) == (ClientContext { shutting_down: true, upload_queue: final(self).upload_queue, ..*old(self) }),
            waiting@.len() == old(self).upload_queue@.len(),
            forall|i: int| 0 <= i < waiting@.len() ==> #[trigger] waiting@[i].0@ == old(self).upload_queue@[i].downloader@
                && waiting@[i].1@ == old(self).upload_queue@[i].virtual_path@,
    {
        self.shutting_down = true;
        let mut queue: Vec<UploadJob> = Vec::new();
        std::mem::swap(&mut queue, &mut self.upload_queue);
        let mut waiting: Vec<(String, String)> = Vec::new();
        let mut i: usize = 0;
        while i < queue.len()
            invariant
                i <= queue@.len(),
                waiting@.len() == i,
                forall|j: int| 0 <= j < i ==> #[trigger] waiting@[j].0@ == queue@[j].downloader@
                    && waiting@[j].1@ == queue@[j].virtual_path@,
            decreases queue@.len() - i,
        {
            let job = &queue[i];
            let who = job.downloader.clone();
            let what = job.virtual_path.clone();
            assert(who@ == queue@[i as int].downloader@);
            assert(what@ == queue@[i as int].virtual_path@);
            let ghost before = waiting@;
            waiting.push((who, what));
            proof {
                assert forall|j: int| 0 <= j <= i implies #[trigger] waiting@[j].0@ == queue@[j].downloader@
                    && waiting@[j].1@ == queue@[j].virtual_path@ by {
                    if j < i {
                        assert(waiting@[j] == before[j]);
                    }
                }
            }
            i += 1;
        }
        waiting
    }
}

/// A client that is closing takes nothing: every request is refused with
/// "Pending shutdown.".
pub proof fn lemma_closing_refuses_everything(ctx: ClientContext, requester: Seq<char>, filename: Seq<char>)
    requires
        ctx.shutting_down,
    ensures
        ctx.verdict_for(requester, filename) == VerdictView::Deny(PENDING_SHUTDOWN@),
{
}

/// A file not shared with the requester is refused as not shared, whatever
/// they have waiting and whatever the limits.
pub proof fn lemma_not_shared_is_not_shared(ctx: ClientContext, requester: Seq<char>, filename: Seq<char>)
    requires
        !ctx.shutting_down,
        share_for(ctx.shares.files@, filename, listed(ctx.friends@, requester)) is None,
    ensures
        ctx.verdict_for(requester, filename) == VerdictView::Deny(FILE_NOT_SHARED@),
{
}

/// Friends are not held to the queue limits: a file shared with them that
/// they do not already have waiting is taken.
pub proof fn lemma_friends_are_not_limited(ctx: ClientContext, requester: Seq<char>, filename: Seq<char>)
    requires
        !ctx.shutting_down,
        listed(ctx.friends@, requester),
        share_for(ctx.shares.files@, filename, true) is Some,
        !ctx.waiting_or_moving(requester, filename),
    ensures
        ctx.verdict_for(requester, filename) matches VerdictView::Queue { .. },
{
}

/// The megabyte limit counts the file asked for: a request from someone
/// who is not a friend, for a file shared with them that they do not have
/// waiting already and that the file limit lets through, is refused as
/// "Too many megabytes" whenever the bytes they have queued plus the file's
/// size pass the limit, and taken when they do not.
pub proof fn lemma_megabyte_limit(ctx: ClientContext, requester: Seq<char>, filename: Seq<char>)
    requires
        !ctx.shutting_down,
        !listed(ctx.friends@, requester),
        share_for(ctx.shares.files@, filename, false) is Some,
        !ctx.waiting_or_moving(requester, filename),
        !(ctx.queue_limits.files matches Some(most) && queued_files(ctx.upload_queue@, requester) >= most),
    ensures
        ({
            let file = share_for(ctx.shares.files@, filename, false).unwrap();
            let total = queued_bytes(ctx.upload_queue@, requester) + file.size;
            &&& (ctx.queue_limits.megabytes matches Some(m) && total > m * 1048576)
                ==> ctx.verdict_for(requester, filename) == VerdictView::Deny(TOO_MANY_MEGABYTES@)
            &&& !(ctx.queue_limits.megabytes matches Some(m) && total > m * 1048576)
                ==> ctx.verdict_for(requester, filename) == (VerdictView::Queue { real_path: file.real_path@, size: file.size })
        }),
{
}

/// The file limit: a request from someone who is not a friend, for a file
/// shared with them that they do not have waiting already, is refused as
/// "Too many files" when they already have as many files queued as the
/// limit allows.
pub proof fn lemma_file_limit(ctx: ClientContext, requester: Seq<char>, filename: Seq<char>, most: u32)
    requires
        !ctx.shutting_down,
        !listed(ctx.friends@, requester),
        share_for(ctx.shares.files@, filename, false) is Some,
        !ctx.waiting_or_moving(requester, filename),
        ctx.queue_limits.files == Some(most),
        ctx.upload_queue@.filter(|j: UploadJob| j.downloader@ == requester).len() >= most,
    ensures
        ctx.verdict_for(requester, filename) == VerdictView::Deny(TOO_MANY_FILES@),
{
    lemma_queued_files_counts(ctx.upload_queue@, requester, |j: UploadJob| j.downloader@ == requester);
}

/// The files someone has waiting are the jobs in the queue that are theirs.
proof fn lemma_queued_files_counts(queue: Seq<UploadJob>, who: Seq<char>, theirs: spec_fn(UploadJob) -> bool)
    requires
        forall|j: UploadJob| #[trigger] theirs(j) == (j.downloader@ == who),
    ensures
        queued_files(queue, who) == queue.filter(theirs).len(),
    decreases queue.len(),
{
    reveal(Seq::filter);
    if queue.len() > 0 {
        lemma_queued_files_counts(queue.drop_last(), who, theirs);
    }
}

/// A file larger than the megabyte limit on its own is never queued for
/// someone who is not a friend, whatever they have waiting.
pub proof fn lemma_file_over_limit_never_queued(ctx: ClientContext, requester: Seq<char>, filename: Seq<char>, m: u64)
    requires
        !listed(ctx.friends@, requester),
        ctx.queue_limits.megabytes == Some(m),
        share_for(ctx.shares.files@, filename, false) matches Some(file) && file.size > m * 1048576,
    ensures
        !(ctx.verdict_for(requester, filename) is Queue),
{
}

/// Asking again keeps the place: once a file is queued for someone, their
/// next request for it is answered "already waiting", not refused for the
/// limits, while we are open and still share it with them.
pub proof fn lemma_asking_again_keeps_the_place(
    before: ClientContext,
    after: ClientContext,
    requester: Seq<char>,
    filename: Seq<char>,
)
    requires
        after.upload_queue@.drop_last() == before.upload_queue@,
        after.upload_queue@.len() == before.upload_queue@.len() + 1,
        after.upload_queue@.last().downloader@ == requester,
        after.upload_queue@.last().virtual_path@ == filename,
        !after.shutting_down,
        share_for(after.shares.files@, filename, listed(after.friends@, requester)) is Some,
    ensures
        after.verdict_for(requester, filename) == VerdictView::AlreadyWaiting,
{
    let i = after.upload_queue@.len() - 1;
    assert(after.upload_queue@[i].downloader@ == requester);
    assert(queued_has(after.upload_queue@, requester, filename));
}

} // verus!
