//! `UploadDenied` (peer code 50): a peer will not send us a file, and says
//! why.

use vstd::prelude::*;

use vstd::string::StringExecFns;
use crate::message::{Message, u32_bytes, str_bytes, read_str_at};
use crate::message::text::{lemma_trim_idempotent, same_text, trim_text, trim_end_char, trim_spec, trim_end_char_spec, trim_start_spec, trim_end_spec, is_space};
use crate::peer::PeerMessage;

verus! {

/// Build an `UploadDenied` (peer code 50): we will not send `filename`, and
/// `reason` is why, in the protocol's own words.
pub fn build_upload_denied(filename: &str, reason: &str) -> (m: Message)
    ensures
        m.bytes() == u32_bytes(50) + str_bytes(filename@) + str_bytes(reason@),
        m.pos() == 0,
{
    let mut m = Message::new();
    m.write_int32(50);
    m.write_string(filename);
    m.write_string(reason);
    m
}

/// A peer refusing to send us a file.
pub struct UploadDeniedHandler;

impl UploadDeniedHandler {
    pub fn get_code(&self) -> (c: u32)
        ensures
            c == 50,
    {
        50
    }

    /// The failure, said plainly; nothing when the reason is "Queued",
    /// which is no refusal.
    pub fn handle(&self, message: &mut Message) -> (r: Option<PeerMessage>)
        ensures
            final(message).bytes() == old(message).bytes(),
            ({
                let d = old(message).bytes();
                let (filename, p1) = read_str_at(d, old(message).pos());
                let (reason, p2) = read_str_at(d, p1);
                &&& final(message).pos() == p2
                &&& reason == "Queued"@ ==> r is None
                &&& reason != "Queued"@ ==> (r matches Some(PeerMessage::UploadFailed { filename: f, reason: Some(said) })
                    && f@ == filename && said@ == plain_spec(reason))
            }),
    {
        let filename = message.read_string();
        let reason = message.read_string();
        if same_text(reason.as_str(), "Queued") {
            return None;
        }
        let said = plain(reason.as_str());
        Some(PeerMessage::UploadFailed { filename, reason: Some(said) })
    }
}

/// What a denial reason means, said to the person whose download it was.
pub open spec fn plain_spec(reason: Seq<char>) -> Seq<char> {
    let t = trim_end_char_spec(trim_spec(reason), '.');
    if t == "Banned"@ {
        "The user does not share with you"@
    } else if t == "Cancelled"@ {
        "The user cancelled the upload"@
    } else if t == "File not shared"@ {
        "The user no longer shares this file"@
    } else if t == "File read error"@ {
        "The user could not read this file"@
    } else if t == "Pending shutdown"@ {
        "The user is closing their client"@
    } else if t == "Too many files"@ {
        "You have queued as many files as this user allows"@
    } else if t == "Too many megabytes"@ {
        "You have queued as much data as this user allows"@
    } else if t == "Disallowed extension"@ {
        "The user does not share this kind of file"@
    } else if t == ""@ {
        "The user declined the download"@
    } else {
        "The user declined: "@ + trim_spec(reason)
    }
}

/// What a denial reason means, said to the person whose download it was.
///
/// The reasons are fixed strings that clients agree on, some with a trailing
/// full stop and some without, so both spellings are matched. Anything else
/// is a client's own wording and is passed on as it came.
pub fn plain(reason: &str) -> (r: String)
    ensures
        r@ == plain_spec(reason@),
{
    let trimmed = trim_text(reason);
    let t = trim_end_char(trimmed, '.');
    let said = if same_text(t, "Banned") {
        "The user does not share with you"
    } else if same_text(t, "Cancelled") {
        "The user cancelled the upload"
    } else if same_text(t, "File not shared") {
        "The user no longer shares this file"
    } else if same_text(t, "File read error") {
        "The user could not read this file"
    } else if same_text(t, "Pending shutdown") {
        "The user is closing their client"
    } else if same_text(t, "Too many files") {
        "You have queued as many files as this user allows"
    } else if same_text(t, "Too many megabytes") {
        "You have queued as much data as this user allows"
    } else if same_text(t, "Disallowed extension") {
        "The user does not share this kind of file"
    } else if same_text(t, "") {
        "The user declined the download"
    } else {
        return String::from_str("The user declined: ").concat(trimmed);
    };
    String::from_str(said)
}

/// Whether `t` is one of the reasons clients agree on, without its full
/// stop; the empty reason among them.
pub open spec fn known_reason(t: Seq<char>) -> bool {
    t == "Banned"@ || t == "Cancelled"@ || t == "File not shared"@ || t == "File read error"@
        || t == "Pending shutdown"@ || t == "Too many files"@ || t == "Too many megabytes"@
        || t == "Disallowed extension"@ || t == ""@
}

proof fn lemma_trim_start_push(s: Seq<char>, c: char)
    requires
        !is_space(c),
    ensures
        trim_start_spec(s.push(c)) == trim_start_spec(s).push(c),
    decreases s.len(),
{
    if s.len() > 0 && is_space(s[0]) {
        assert(s.push(c).drop_first() =~= s.drop_first().push(c));
        lemma_trim_start_push(s.drop_first(), c);
    } else if s.len() == 0 {
        assert(s.push(c)[0] == c);
    } else {
        assert(s.push(c)[0] == s[0]);
    }
}

proof fn lemma_trim_start_last(s: Seq<char>)
    ensures
        trim_start_spec(s).len() == 0 || (s.len() > 0 && trim_start_spec(s).last() == s.last()),
    decreases s.len(),
{
    if s.len() > 0 && is_space(s[0]) {
        lemma_trim_start_last(s.drop_first());
    }
}

/// A known reason reads the same with a full stop after it as without:
/// clients spell the reasons both ways. (The reason must not end in white
/// space, where the full stop would no longer be at its end once trimmed.)
pub proof fn lemma_full_stop_does_not_matter(s: Seq<char>)
    requires
        s.len() > 0 ==> !is_space(s.last()),
        known_reason(trim_end_char_spec(trim_spec(s), '.')),
    ensures
        plain_spec(s.push('.')) == plain_spec(s),
{
    assert(!is_space('.'));
    lemma_trim_start_push(s, '.');
    let x = trim_start_spec(s);
    lemma_trim_start_last(s);
    assert(trim_end_spec(x.push('.')) == x.push('.'));
    assert(trim_end_char_spec(x.push('.'), '.') == trim_end_char_spec(x, '.')) by {
        assert(x.push('.').drop_last() =~= x);
    }
    assert(trim_end_spec(x) == x);
}

/// Space around a reason changes nothing: a reason means what it means
/// trimmed.
pub proof fn lemma_plain_of_trimmed(reason: Seq<char>)
    ensures
        plain_spec(trim_spec(reason)) == plain_spec(reason),
{
    lemma_trim_idempotent(reason);
}

} // verus!
