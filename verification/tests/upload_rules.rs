use soulseek_rs::client::upload_rules::{QueueLimits, Verdict, FILE_NOT_SHARED, PENDING_SHUTDOWN, TOO_MANY_FILES, TOO_MANY_MEGABYTES};
use soulseek_rs::client::{ClientContext, SharedFile, Shares};

/// A context sharing `open.mp3` (100 bytes) with everyone and
/// `mine.mp3` with friends only.
fn sharing() -> (ClientContext, String, String) {
    let mut ctx = ClientContext::new();
    ctx.shares = Shares::new(vec![
        SharedFile {
            virtual_path: "open\\open.mp3".to_string(),
            real_path: "/srv/open/open.mp3".to_string(),
            size: 100,
            friends_only: false,
        },
        SharedFile {
            virtual_path: "mine\\mine.mp3".to_string(),
            real_path: "/srv/mine/mine.mp3".to_string(),
            size: 100,
            friends_only: true,
        },
    ]);
    (ctx, "open\\open.mp3".to_string(), "mine\\mine.mp3".to_string())
}

#[test]
fn a_file_we_do_not_share_is_refused_as_not_shared() {
    let (ctx, _, _) = sharing();
    assert_eq!(ctx.judge_queue_request("bob", "open\\nothing.mp3"), Verdict::Deny(FILE_NOT_SHARED));
}

#[test]
fn a_friends_only_file_is_not_shared_with_anyone_else() {
    let (mut ctx, _, mine) = sharing();
    assert_eq!(ctx.judge_queue_request("bob", &mine), Verdict::Deny(FILE_NOT_SHARED));
    ctx.set_friends(vec!["bob".to_string()]);
    assert!(matches!(ctx.judge_queue_request("bob", &mine), Verdict::Queue { size: 100, .. }));
}

#[test]
fn asking_again_keeps_the_place() {
    let (mut ctx, open, _) = sharing();
    ctx.enqueue_upload("bob", &open, String::new(), 100);
    assert_eq!(ctx.judge_queue_request("bob", &open), Verdict::AlreadyWaiting);
    // Someone else asking for the same file is a new request.
    assert!(matches!(ctx.judge_queue_request("ann", &open), Verdict::Queue { .. }));
}

#[test]
fn limits_count_what_the_person_has_waiting() {
    let (mut ctx, open, _) = sharing();
    ctx.set_queue_limits(QueueLimits { files: Some(1), megabytes: None });
    ctx.enqueue_upload("bob", "open\\other.mp3", String::new(), 100);
    assert_eq!(ctx.judge_queue_request("bob", &open), Verdict::Deny(TOO_MANY_FILES));
    // Someone else's waiting files are not bob's.
    assert!(matches!(ctx.judge_queue_request("ann", &open), Verdict::Queue { .. }));
    // And a friend is not held to it.
    ctx.set_friends(vec!["bob".to_string()]);
    assert!(matches!(ctx.judge_queue_request("bob", &open), Verdict::Queue { .. }));
}

#[test]
fn the_size_limit_counts_the_file_asked_for() {
    let (mut ctx, open, _) = sharing();
    ctx.set_queue_limits(QueueLimits { files: None, megabytes: Some(1) });
    ctx.enqueue_upload("bob", "open\\big.flac", String::new(), 1024 * 1024);
    assert_eq!(ctx.judge_queue_request("bob", &open), Verdict::Deny(TOO_MANY_MEGABYTES));
}

#[test]
fn closing_refuses_new_requests_and_hands_back_the_queue() {
    let (mut ctx, open, _) = sharing();
    ctx.enqueue_upload("bob", &open, String::new(), 100);
    let waiting = ctx.begin_shutdown();
    assert_eq!(waiting, vec![("bob".to_string(), open.clone())]);
    assert_eq!(ctx.judge_queue_request("ann", &open), Verdict::Deny(PENDING_SHUTDOWN));
}

#[test]
fn a_taken_request_names_where_the_file_is() {
    let (ctx, open, _) = sharing();
    assert_eq!(
        ctx.judge_queue_request("ann", &open),
        Verdict::Queue { real_path: "/srv/open/open.mp3".to_string(), size: 100 }
    );
    assert!(ctx.is_friend("ann") == false);
}

#[test]
fn a_file_just_under_the_size_limit_is_taken() {
    let (mut ctx, open, _) = sharing();
    ctx.set_queue_limits(QueueLimits { files: Some(2), megabytes: Some(1) });
    ctx.enqueue_upload("bob", "open\\almost.flac", String::new(), 1024 * 1024 - 100);
    assert!(matches!(ctx.judge_queue_request("bob", &open), Verdict::Queue { .. }));
}
