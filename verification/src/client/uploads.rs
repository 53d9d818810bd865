//! The client's upload side, as the host drives it.
//!
//! What is to be sent goes into the outbox, in order, for the host to send
//! on the connections it keeps.

use vstd::prelude::*;
use vstd::string::StringExecFns;
use crate::actor::server_actor::ServerMessage;
use crate::client::{ClientContext, ActiveUpload, UploadJob, UploadOffer, listed, offers_owed, streaming_count, offer_steps,
    first_token, without_token, failing, unaffected, opt_text, failure_words, lemma_offer_steps_exclude};
use crate::client::upload_rules::{QueueLimits, PENDING_SHUTDOWN};
use crate::error::{Result, SoulseekRs};
use crate::message::{Message, u32_bytes, str_bytes};
use crate::message::peer::MAX_PICTURE;
use crate::message::peer::upload_denied::build_upload_denied;
use crate::message::server::MessageFactory;
use crate::types::{UploadInfo, UploadStatus};

verus! {

/// One for `true`, none for `false`.
pub open spec fn count_of(b: bool) -> int {
    if b { 1 } else { 0 }
}

/// Something for the host to send.
#[derive(Debug)]
pub enum Outgoing {
    /// To the server.
    Server(ServerMessage),
    /// To the peer `username`.
    Peer { username: String, message: Message },
    /// Offer a queued file to the peer who asked for it.
    Offer(UploadOffer),
}

/// The client as its host holds it: its state, whether the server is
/// connected, and what is waiting to be sent.
pub struct Client {
    pub context: ClientContext,
    pub server_connected: bool,
    pub outbox: Vec<Outgoing>,
}

impl Client {
    /// A client with this state, not connected, with nothing to send.
    pub fn new(context: ClientContext) -> (c: Client)
        ensures
            c.context == context,
            !c.server_connected,
            c.outbox@ == Seq::<Outgoing>::empty(),
    {
        Client { context, server_connected: false, outbox: Vec::new() }
    }

    /// Whether the server listed `username` as privileged. Privileged peers are
    /// served before everyone else.
    pub fn is_privileged(&self, username: &str) -> (r: bool)
        ensures
            r == listed(self.context.privileged@, username@),
    {
        self.context.is_privileged(username)
    }

    /// Ask the server how much of our own privilege time is left (code 92). The
    /// answer arrives asynchronously; read it with
    /// [`Client::own_privilege_seconds`].
    ///
    /// # Errors
    /// [`SoulseekRs::NotConnected`] without a server connection.
    pub fn check_privileges(&mut self) -> (r: Result<()>)
        ensures
            final(self).context == old(self).context,
            final(self).server_connected == old(self).server_connected,
            !old(self).server_connected ==> (r matches Err(SoulseekRs::NotConnected) && final(self).outbox@ == old(self).outbox@),
            old(self).server_connected ==> (r is Ok && final(self).outbox@.len() == old(self).outbox@.len() + 1
                && final(self).outbox@.drop_last() == old(self).outbox@
                && final(self).outbox@.last() matches Outgoing::Server(ServerMessage::CheckPrivileges)),
    {
        if !self.server_connected {
            return Err(SoulseekRs::NotConnected);
        }
        self.outbox.push(Outgoing::Server(ServerMessage::CheckPrivileges));
        proof {
            assert(self.outbox@.drop_last() =~= old(self).outbox@);
        }
        Ok(())
    }

    /// Seconds of our own privileges left, or `None` until the server has
    /// answered a [`Client::check_privileges`].
    pub fn own_privilege_seconds(&self) -> (r: Option<u32>)
        ensures
            r == self.context.own_privileges,
    {
        self.context.own_privileges
    }

    /// Queued-upload states recorded since the last call, for a caller that
    /// samples the uploads and would otherwise miss a peer that queued and was
    /// served between two samples.
    pub fn take_upload_events(&mut self) -> (events: Vec<UploadInfo>)
        ensures
            events@ == old(self).context.upload_events@,
            final(self).context.upload_events@ == Seq::<UploadInfo>::empty(),
            final(self).context == (ClientContext { upload_events: final(self).context.upload_events, ..old(self).context }),
            final(self).server_connected == old(self).server_connected,
            final(self).outbox == old(self).outbox,
    {
        self.context.take_upload_events()
    }

    /// Set what a peer is told when it asks who we are.
    ///
    /// Every other client shows this as a person's profile: the text they
    /// wrote and the picture they chose.
    ///
    /// # Errors
    ///
    /// A picture larger than [`MAX_PICTURE`] is refused rather than sent: it
    /// is the size past which this library drops a peer's own picture unread,
    /// and a client reading ours is owed the same courtesy.
    pub fn set_profile(&mut self, text: &str, picture: Option<Vec<u8>>) -> (r: Result<()>)
        ensures
            final(self).server_connected == old(self).server_connected,
            final(self).outbox == old(self).outbox,
            (picture matches Some(p) && p@.len() > MAX_PICTURE) ==> (r matches Err(SoulseekRs::InvalidMessage(m))
                && m@ == "a profile picture can be at most 4194304 bytes"@
                && final(self).context == old(self).context),
            !(picture matches Some(p) && p@.len() > MAX_PICTURE) ==> (r is Ok
                && final(self).context.profile_text@ == text@
                && final(self).context.profile_picture == picture
                && final(self).context == (ClientContext {
                    profile_text: final(self).context.profile_text,
                    profile_picture: picture,
                    ..old(self).context
                })),
    {
        let too_big = match &picture {
            Some(bytes) => bytes.len() > MAX_PICTURE,
            None => false,
        };
        if too_big {
            return Err(SoulseekRs::InvalidMessage(String::from_str("a profile picture can be at most 4194304 bytes")));
        }
        self.context.profile_text = String::from_str(text);
        self.context.profile_picture = picture;
        Ok(())
    }

    /// How many uploads run at once, one at least. Lowering it does not
    /// interrupt transfers already in flight; the queue simply refills more
    /// slowly.
    pub fn set_upload_slots(&mut self, slots: usize)
        ensures
            final(self).context == (ClientContext { upload_slots: if slots > 1 { slots } else { 1 }, ..old(self).context }),
            final(self).server_connected == old(self).server_connected,
            final(self).outbox == old(self).outbox,
    {
        self.context.upload_slots = if slots > 1 { slots } else { 1 };
    }

    /// Replace the set of people whose upload requests are not served.
    ///
    /// Not refused — ignored: a refusal is still a conversation. Anything of
    /// theirs already in the queue goes with it, or ignoring somebody would
    /// only apply to requests they had not made yet.
    pub fn set_ignored(&mut self, users: Vec<String>)
        ensures
            final(self).context.ignored@ == users@,
            final(self).context.upload_queue@
                == old(self).context.upload_queue@.filter(|j: UploadJob| !listed(users@, j.downloader@)),
            final(self).context == (ClientContext {
                ignored: final(self).context.ignored,
                upload_queue: final(self).context.upload_queue,
                ..old(self).context
            }),
            final(self).server_connected == old(self).server_connected,
            final(self).outbox == old(self).outbox,
    {
        self.context.set_ignored(users);
    }

    /// Replace the set of people counted as friends. They are sent what is
    /// shared with friends only, and are not held to the queue limits.
    pub fn set_friends(&mut self, users: Vec<String>)
        ensures
            final(self).context.friends@ == users@,
            final(self).context == (ClientContext { friends: final(self).context.friends, ..old(self).context }),
            final(self).server_connected == old(self).server_connected,
            final(self).outbox == old(self).outbox,
    {
        self.context.set_friends(users);
    }

    /// How much one person may have waiting in our queue. A request past
    /// either limit is refused with the protocol's "Too many files" or "Too
    /// many megabytes", which their client shows them.
    pub fn set_queue_limits(&mut self, limits: QueueLimits)
        ensures
            final(self).context == (ClientContext { queue_limits: limits, ..old(self).context }),
            final(self).server_connected == old(self).server_connected,
            final(self).outbox == old(self).outbox,
    {
        self.context.set_queue_limits(limits);
    }

    /// Say we are closing: everyone waiting in the queue is told "Pending
    /// shutdown." and every later request is refused the same way. Call it
    /// while the peers can still be reached, so their clients stop waiting on
    /// a queue that is gone.
    pub fn announce_shutdown(&mut self)
        ensures
            final(self).context.shutting_down,
            final(self).context.upload_queue@ == Seq::<UploadJob>::empty(),
            final(self).context == (ClientContext {
                shutting_down: true,
                upload_queue: final(self).context.upload_queue,
                ..old(self).context
            }),
            final(self).server_connected == old(self).server_connected,
            final(self).outbox@.len() == old(self).outbox@.len() + old(self).context.upload_queue@.len(),
            final(self).outbox@.take(old(self).outbox@.len() as int) == old(self).outbox@,
            forall|i: int| 0 <= i < old(self).context.upload_queue@.len() ==> {
                let job = old(self).context.upload_queue@[i];
                &&& #[trigger] final(self).outbox@[old(self).outbox@.len() + i] matches Outgoing::Peer { username, message }
                &&& username@ == job.downloader@
                &&& message.bytes() == u32_bytes(50) + str_bytes(job.virtual_path@) + str_bytes(PENDING_SHUTDOWN@)
            },
    {
        let waiting = self.context.begin_shutdown();
        let ghost o0 = self.outbox@;
        let ghost q0 = old(self).context.upload_queue@;
        let mut i: usize = 0;
        while i < waiting.len()
            invariant
                i <= waiting@.len(),
                waiting@.len() == q0.len(),
                forall|j: int| 0 <= j < waiting@.len() ==> #[trigger] waiting@[j].0@ == q0[j].downloader@
                    && waiting@[j].1@ == q0[j].virtual_path@,
                self.outbox@.len() == o0.len() + i,
                self.outbox@.take(o0.len() as int) == o0,
                forall|j: int| 0 <= j < i ==> {
                    &&& #[trigger] self.outbox@[o0.len() + j] matches Outgoing::Peer { username, message }
                    &&& username@ == q0[j].downloader@
                    &&& message.bytes() == u32_bytes(50) + str_bytes(q0[j].virtual_path@) + str_bytes(PENDING_SHUTDOWN@)
                },
                self.context == (ClientContext {
                    shutting_down: true,
                    upload_queue: self.context.upload_queue,
                    ..old(self).context
                }),
                self.context.upload_queue@ == Seq::<UploadJob>::empty(),
                self.server_connected == old(self).server_connected,
            decreases waiting@.len() - i,
        {
            let (downloader, filename) = (&waiting[i].0, &waiting[i].1);
            let message = build_upload_denied(filename.as_str(), PENDING_SHUTDOWN);
            let ghost before = self.outbox@;
            self.outbox.push(Outgoing::Peer { username: downloader.clone(), message });
            proof {
                assert(self.outbox@.take(o0.len() as int) =~= o0) by {
                    assert(before.take(o0.len() as int) == o0);
                }
                assert forall|j: int| 0 <= j < i + 1 implies {
                    &&& #[trigger] self.outbox@[o0.len() + j] matches Outgoing::Peer { username, message }
                    &&& username@ == q0[j].downloader@
                    &&& message.bytes() == u32_bytes(50) + str_bytes(q0[j].virtual_path@) + str_bytes(PENDING_SHUTDOWN@)
                } by {
                    if j < i {
                        assert(self.outbox@[o0.len() + j] == before[o0.len() + j]);
                    }
                }
            }
            i += 1;
        }
    }

    /// Drop everything `username` was queued or offered, then hand their
    /// slot to whoever is next.
    pub fn release_upload_slots(&mut self, username: &str)
        ensures
            final(self).server_connected == old(self).server_connected,
            final(self).outbox@.len() >= old(self).outbox@.len(),
            final(self).outbox@.take(old(self).outbox@.len() as int) == old(self).outbox@,
            forall|i: int| 0 <= i < final(self).context.upload_queue@.len()
                ==> (#[trigger] final(self).context.upload_queue@[i]).downloader@ != username@,
            forall|i: int| 0 <= i < final(self).context.uploads@.len()
                ==> (#[trigger] final(self).context.uploads@[i]).1.downloader@ != username@,
            ({
                let q1 = old(self).context.upload_queue@.filter(|j: UploadJob| j.downloader@ != username@);
                let u1 = old(self).context.uploads@.filter(|u: (u32, UploadJob)| u.1.downloader@ != username@);
                let freed = q1.len() < old(self).context.upload_queue@.len() || u1.len() < old(self).context.uploads@.len();
                let n = if freed {
                    offers_owed(u1.len() + streaming_count(old(self).context.active_uploads@), old(self).context.upload_slots as nat, q1.len())
                } else {
                    0
                };
                &&& (final(self).context.upload_queue@, final(self).context.uploads@, final(self).context.next_token)
                    == offer_steps(q1, u1, old(self).context.next_token, old(self).context.privileged@, n)
                &&& final(self).outbox@.len() == old(self).outbox@.len() + n
                &&& forall|i: int| 0 <= i < n ==> {
                    let u = final(self).context.uploads@[u1.len() + i];
                    &&& #[trigger] final(self).outbox@[old(self).outbox@.len() + i] matches Outgoing::Offer(offer)
                    &&& offer.token == u.0
                    &&& offer.requester_key == u.1.downloader
                    &&& offer.virtual_path == u.1.virtual_path
                    &&& offer.size == u.1.size
                }
            }),
            final(self).context == (ClientContext {
                upload_queue: final(self).context.upload_queue,
                uploads: final(self).context.uploads,
                next_token: final(self).context.next_token,
                ..old(self).context
            }),
            old(self).context.tokens_unique() && old(self).context.token_room() ==> final(self).context.tokens_unique(),
    {
        let freed = self.context.release_upload_slots(username);
        proof {
            let q = self.context.upload_queue@;
            let u = self.context.uploads@;
            let keep_job = |j: UploadJob| j.downloader@ != username@;
            let keep_offer = |o: (u32, UploadJob)| o.1.downloader@ != username@;
            assert forall|i: int| 0 <= i < q.len() implies (#[trigger] q[i]).downloader@ != username@ by {
                old(self).context.upload_queue@.lemma_filter_pred(keep_job, i);
            }
            assert forall|i: int| 0 <= i < u.len() implies (#[trigger] u[i]).1.downloader@ != username@ by {
                old(self).context.uploads@.lemma_filter_pred(keep_offer, i);
            }
            old(self).context.upload_queue@.lemma_filter_len(keep_job);
            old(self).context.uploads@.lemma_filter_len(keep_offer);
        }
        if freed {
            let ghost c1 = self.context;
            self.pump_upload_queue();
            proof {
                let busy = c1.uploads@.len() + streaming_count(c1.active_uploads@);
                let n = offers_owed(busy, c1.upload_slots as nat, c1.upload_queue@.len());
                assert(n <= c1.upload_queue@.len());
                lemma_offer_steps_exclude(c1.upload_queue@, c1.uploads@, c1.next_token, c1.privileged@, n, username@);
                let r = offer_steps(c1.upload_queue@, c1.uploads@, c1.next_token, c1.privileged@, n);
                assert(self.context.upload_queue@ == r.0);
                assert(self.context.uploads@ == r.1);
            }
        }
        proof {
            assert(self.outbox@.take(old(self).outbox@.len() as int) =~= old(self).outbox@);
        }
    }

    /// Fill every free upload slot from the queue and send the offers.
    ///
    /// Called whenever the queue or the slot count could have changed: a new
    /// request, a finished transfer, or a privileged list that re-ranked who is
    /// waiting.
    pub fn pump_upload_queue(&mut self)
        ensures
            ({
                let busy = old(self).context.uploads@.len() + streaming_count(old(self).context.active_uploads@);
                let n = offers_owed(busy, old(self).context.upload_slots as nat, old(self).context.upload_queue@.len());
                let o0 = old(self).outbox@.len();
                &&& (final(self).context.upload_queue@, final(self).context.uploads@, final(self).context.next_token)
                    == offer_steps(old(self).context.upload_queue@, old(self).context.uploads@,
                        old(self).context.next_token, old(self).context.privileged@, n)
                &&& final(self).outbox@.len() == o0 + n
                &&& final(self).outbox@.take(o0 as int) == old(self).outbox@
                &&& forall|i: int| 0 <= i < n ==> {
                    let u = final(self).context.uploads@[old(self).context.uploads@.len() + i];
                    &&& #[trigger] final(self).outbox@[o0 + i] matches Outgoing::Offer(offer)
                    &&& offer.token == u.0
                    &&& offer.requester_key == u.1.downloader
                    &&& offer.virtual_path == u.1.virtual_path
                    &&& offer.size == u.1.size
                }
            }),
            final(self).context == (ClientContext {
                upload_queue: final(self).context.upload_queue,
                uploads: final(self).context.uploads,
                next_token: final(self).context.next_token,
                ..old(self).context
            }),
            final(self).server_connected == old(self).server_connected,
            old(self).context.tokens_unique() && old(self).context.token_room() ==> final(self).context.tokens_unique(),
            ({
                let holding = old(self).context.uploads@.len()
                    + old(self).context.active_uploads@.filter(|e: (u32, ActiveUpload)| e.1.status is InProgress).len();
                &&& holding >= old(self).context.upload_slots ==> final(self).outbox@ == old(self).outbox@
                    && final(self).context.uploads@ == old(self).context.uploads@
                    && final(self).context.upload_queue@ == old(self).context.upload_queue@
                &&& holding < old(self).context.upload_slots ==> final(self).context.uploads@.len()
                    + old(self).context.active_uploads@.filter(|e: (u32, ActiveUpload)| e.1.status is InProgress).len()
                    <= old(self).context.upload_slots
            }),
    {
        proof {
            crate::client::lemma_pump_fills_free_slots(self.context.upload_queue@, self.context.uploads@,
                self.context.active_uploads@, self.context.next_token, self.context.privileged@, self.context.upload_slots as nat);
        }
        let offers = self.context.pump_uploads();
        let ghost c1 = self.context;
        let ghost o0 = self.outbox@;
        let ghost u0 = old(self).context.uploads@;
        let ghost done = self.context.uploads@;
        let mut i: usize = 0;
        while i < offers.len()
            invariant
                i <= offers@.len(),
                self.outbox@.len() == o0.len() + i,
                self.outbox@.take(o0.len() as int) == o0,
                self.context == c1,
                self.server_connected == old(self).server_connected,
                self.context.uploads@ == done,
                forall|j: int| 0 <= j < offers@.len() ==> {
                    let u = #[trigger] done[u0.len() + j];
                    &&& offers@[j].token == u.0
                    &&& offers@[j].requester_key == u.1.downloader
                    &&& offers@[j].virtual_path == u.1.virtual_path
                    &&& offers@[j].size == u.1.size
                },
                forall|j: int| 0 <= j < i ==> {
                    let u = done[u0.len() + j];
                    &&& #[trigger] self.outbox@[o0.len() + j] matches Outgoing::Offer(offer)
                    &&& offer.token == u.0
                    &&& offer.requester_key == u.1.downloader
                    &&& offer.virtual_path == u.1.virtual_path
                    &&& offer.size == u.1.size
                },
            decreases offers@.len() - i,
        {
            let offer = &offers[i];
            let ghost before = self.outbox@;
            let copy = UploadOffer {
                requester_key: offer.requester_key.clone(),
                token: offer.token,
                virtual_path: offer.virtual_path.clone(),
                size: offer.size,
            };
            self.outbox.push(Outgoing::Offer(copy));
            proof {
                assert(self.outbox@.take(o0.len() as int) =~= o0) by {
                    assert(before.take(o0.len() as int) == o0);
                }
                assert(done[u0.len() + i] == done[u0.len() + i]);
                assert forall|j: int| 0 <= j < i + 1 implies {
                    let u = done[u0.len() + j];
                    &&& #[trigger] self.outbox@[o0.len() + j] matches Outgoing::Offer(offer)
                    &&& offer.token == u.0
                    &&& offer.requester_key == u.1.downloader
                    &&& offer.virtual_path == u.1.virtual_path
                    &&& offer.size == u.1.size
                } by {
                    if j < i {
                        assert(self.outbox@[o0.len() + j] == before[o0.len() + j]);
                    } else {
                        assert(done[u0.len() + j] == done[u0.len() + j]);
                    }
                }
            }
            i += 1;
        }
        proof {
            if offers@.len() == 0 {
                assert(self.outbox@ =~= self.outbox@.take(o0.len() as int));
            }
        }
    }

    /// Take the offer filed under `token` to stream it, recording it as
    /// streaming; the job to stream, or `None` for a token nobody was offered.
    pub fn begin_serve(&mut self, token: u32) -> (job: Option<UploadJob>)
        ensures
            final(self).server_connected == old(self).server_connected,
            final(self).outbox == old(self).outbox,
            match first_token(old(self).context.uploads@, token) {
                None => job is None && final(self).context == old(self).context,
                Some(k) => job == Some(old(self).context.uploads@[k].1)
                    && final(self).context.uploads@ == without_token(old(self).context.uploads@, token)
                    && final(self).context.active_uploads@.len() > 0
                    && final(self).context.active_uploads@.drop_last() == without_token(old(self).context.active_uploads@, token)
                    && final(self).context.active_uploads@.last().0 == token
                    && final(self).context.active_uploads@.last().1.username == old(self).context.uploads@[k].1.downloader
                    && final(self).context.active_uploads@.last().1.filename == old(self).context.uploads@[k].1.virtual_path
                    && final(self).context.active_uploads@.last().1.size == old(self).context.uploads@[k].1.size
                    && final(self).context.active_uploads@.last().1.status is InProgress,
            },
            old(self).context.tokens_unique() ==> final(self).context.tokens_unique(),
    {
        self.context.begin_serve(token)
    }

    /// Record how the stream filed under `token` ended. A speed, when the
    /// transfer had one, is reported to the server, which folds it into the
    /// average it shows others for us. The slot is free again, so the queue
    /// is pumped.
    pub fn finish_serve(&mut self, token: u32, status: UploadStatus, speed: Option<u32>)
        ensures
            final(self).server_connected == old(self).server_connected,
            final(self).outbox@.take(old(self).outbox@.len() as int) == old(self).outbox@,
            match first_token(old(self).context.active_uploads@, token) {
                Some(k) => {
                    &&& final(self).context.active_uploads@.len() == old(self).context.active_uploads@.len()
                    &&& forall|j: int| 0 <= j < old(self).context.active_uploads@.len() && j != k
                        ==> #[trigger] final(self).context.active_uploads@[j] == old(self).context.active_uploads@[j]
                    &&& final(self).context.active_uploads@[k].0 == token
                    &&& final(self).context.active_uploads@[k].1 == (ActiveUpload { status: status, ..old(self).context.active_uploads@[k].1 })
                    &&& final(self).context.last_upload_speed == (match speed { Some(s) => s, None => old(self).context.last_upload_speed })
                    &&& old(self).server_connected ==> (speed matches Some(s) ==> (final(self).outbox@[old(self).outbox@.len() as int] matches
                        Outgoing::Server(ServerMessage::SendMessage(m)) && m.bytes() == u32_bytes(121) + u32_bytes(s)))
                },
                None => final(self).context.active_uploads == old(self).context.active_uploads
                    && final(self).context.last_upload_speed == old(self).context.last_upload_speed,
            },
            ({
                let reported = first_token(old(self).context.active_uploads@, token) is Some && speed is Some
                    && old(self).server_connected;
                let busy = old(self).context.uploads@.len() + streaming_count(final(self).context.active_uploads@);
                let n = offers_owed(busy, old(self).context.upload_slots as nat, old(self).context.upload_queue@.len());
                &&& (final(self).context.upload_queue@, final(self).context.uploads@, final(self).context.next_token)
                    == offer_steps(old(self).context.upload_queue@, old(self).context.uploads@,
                        old(self).context.next_token, old(self).context.privileged@, n)
                &&& final(self).outbox@.len() == old(self).outbox@.len() + (if reported { 1int } else { 0int }) + n
                &&& forall|i: int| 0 <= i < n ==> {
                    let u = final(self).context.uploads@[old(self).context.uploads@.len() + i];
                    &&& #[trigger] final(self).outbox@[old(self).outbox@.len() + count_of(reported) + i]
                        matches Outgoing::Offer(offer)
                    &&& offer.token == u.0
                    &&& offer.requester_key == u.1.downloader
                    &&& offer.virtual_path == u.1.virtual_path
                    &&& offer.size == u.1.size
                }
            }),
            old(self).context.tokens_unique() && old(self).context.token_room() ==> final(self).context.tokens_unique(),
    {
        let report = self.context.finish_serve(token, status, speed);
        let ghost o0 = self.outbox@;
        match report {
            Some(s) => {
                if self.server_connected {
                    self.outbox.push(Outgoing::Server(ServerMessage::SendMessage(MessageFactory::build_send_upload_speed(s))));
                }
            },
            None => {},
        }
        let ghost o1 = self.outbox@;
        self.pump_upload_queue();
        proof {
            assert(self.outbox@.take(o1.len() as int) == o1);
            if o1.len() > o0.len() {
                assert(self.outbox@[o0.len() as int] == self.outbox@.take(o1.len() as int)[o0.len() as int]);
            }
            assert(self.outbox@.take(old(self).outbox@.len() as int) =~= old(self).outbox@) by {
                assert(o1.take(o0.len() as int) =~= o0);
            }
        }
    }

    /// Fail every download from `username` (of `filename`, when one is
    /// named), saying `reason`, or that the upload failed on the other side.
    pub fn process_failed_uploads(&mut self, username: &str, filename: Option<&str>, reason: Option<&str>)
        ensures
            final(self).server_connected == old(self).server_connected,
            final(self).outbox == old(self).outbox,
            ({
                let gone = old(self).context.downloads@.filter(failing(username@, opt_text(filename)));
                let words = failure_words(opt_text(reason));
                let e0 = old(self).context.download_events@.len();
                &&& final(self).context.downloads@
                    == old(self).context.downloads@.filter(unaffected(username@, opt_text(filename)))
                &&& final(self).context.download_events@.len() == e0 + gone.len()
                &&& final(self).context.download_events@.take(e0 as int) == old(self).context.download_events@
                &&& forall|i: int| 0 <= i < gone.len() ==> {
                    let e = #[trigger] final(self).context.download_events@[e0 + i];
                    &&& e.0 == gone[i].token
                    &&& e.1 matches crate::types::DownloadStatus::Failed(Some(w)) && w@ == words
                }
            }),
            final(self).context == (ClientContext {
                downloads: final(self).context.downloads,
                download_events: final(self).context.download_events,
                ..old(self).context
            }),
    {
        self.context.fail_downloads(username, filename, reason);
    }
}

} // verus!
