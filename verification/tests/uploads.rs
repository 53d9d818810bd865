use soulseek_rs::actor::server_actor::ServerMessage;
use soulseek_rs::client::uploads::{Client, Outgoing};
use soulseek_rs::client::{ClientContext, DownloadEntry};
use soulseek_rs::error::SoulseekRs;
use soulseek_rs::message::Message;
use soulseek_rs::types::{DownloadStatus, UploadStatus};

#[test]
fn privileges_need_a_server() {
    let mut client = Client::new(ClientContext::new());
    assert!(matches!(client.check_privileges(), Err(SoulseekRs::NotConnected)));
    assert!(client.outbox.is_empty());
    client.server_connected = true;
    assert!(client.check_privileges().is_ok());
    assert!(matches!(client.outbox.last(), Some(Outgoing::Server(ServerMessage::CheckPrivileges))));
    assert_eq!(client.own_privilege_seconds(), None);
}

#[test]
fn a_picture_too_large_is_refused() {
    let mut client = Client::new(ClientContext::new());
    match client.set_profile("me", Some(vec![0; 4 * 1024 * 1024 + 1])) {
        Err(SoulseekRs::InvalidMessage(m)) => assert_eq!(m, "a profile picture can be at most 4194304 bytes"),
        other => panic!("unexpected: {other:?}"),
    }
    assert!(client.set_profile("me", Some(vec![1, 2, 3])).is_ok());
    assert_eq!(client.context.profile_text, "me");
    assert_eq!(client.context.profile_picture, Some(vec![1, 2, 3]));
}

#[test]
fn at_least_one_upload_slot() {
    let mut client = Client::new(ClientContext::new());
    client.set_upload_slots(0);
    assert_eq!(client.context.upload_slots, 1);
    client.set_upload_slots(4);
    assert_eq!(client.context.upload_slots, 4);
}

#[test]
fn closing_tells_everyone_waiting() {
    let mut client = Client::new(ClientContext::new());
    client.context.enqueue_upload("bob", "a.mp3", String::new(), 1);
    client.context.enqueue_upload("ann", "b.mp3", String::new(), 2);
    client.announce_shutdown();
    assert!(client.context.shutting_down);
    assert!(client.context.upload_queue.is_empty());
    assert_eq!(client.outbox.len(), 2);
    match &client.outbox[1] {
        Outgoing::Peer { username, message } => {
            assert_eq!(username, "ann");
            let mut m = Message::new_with_data(message.get_data());
            assert_eq!(m.read_int32(), 50);
            assert_eq!(m.read_string(), "b.mp3");
            assert_eq!(m.read_string(), "Pending shutdown.");
        }
        other => panic!("unexpected: {other:?}"),
    }
}

#[test]
fn free_slots_go_to_the_privileged_first() {
    let mut client = Client::new(ClientContext::new());
    client.context.upload_slots = 1;
    client.context.privileged = vec!["vip".to_string()];
    client.context.enqueue_upload("bob", "a.mp3", String::new(), 1);
    client.context.enqueue_upload("vip", "b.mp3", String::new(), 2);
    client.pump_upload_queue();
    assert_eq!(client.outbox.len(), 1);
    match &client.outbox[0] {
        Outgoing::Offer(offer) => {
            assert_eq!(offer.requester_key, "vip");
            assert_eq!(offer.virtual_path, "b.mp3");
            assert_eq!(offer.size, 2);
            assert_eq!(offer.token, 0);
        }
        other => panic!("unexpected: {other:?}"),
    }
    // The one slot is taken: pumping again offers nothing.
    client.pump_upload_queue();
    assert_eq!(client.outbox.len(), 1);
    assert_eq!(client.context.upload_queue.len(), 1);
}

#[test]
fn releasing_a_slot_hands_it_on() {
    let mut client = Client::new(ClientContext::new());
    client.context.enqueue_upload("bob", "a.mp3", String::new(), 1);
    client.context.enqueue_upload("ann", "b.mp3", String::new(), 2);
    client.pump_upload_queue();
    assert_eq!(client.context.uploads.len(), 1);
    client.release_upload_slots("bob");
    assert_eq!(client.context.uploads.len(), 1);
    assert_eq!(client.context.uploads[0].1.downloader, "ann");
    assert!(client.context.upload_queue.is_empty());
}

#[test]
fn a_served_upload_reports_its_speed_and_frees_its_slot() {
    let mut client = Client::new(ClientContext::new());
    client.server_connected = true;
    client.context.enqueue_upload("bob", "a.mp3", "/srv/a.mp3".to_string(), 10);
    client.context.enqueue_upload("ann", "b.mp3", String::new(), 2);
    client.pump_upload_queue();
    let job = client.begin_serve(0).unwrap();
    assert_eq!(job.real_path, "/srv/a.mp3");
    assert!(client.begin_serve(0).is_none());
    assert!(matches!(client.context.active_uploads[0].1.status, UploadStatus::InProgress));
    client.finish_serve(0, UploadStatus::Completed, Some(500));
    assert_eq!(client.context.last_upload_speed, 500);
    assert!(matches!(client.context.active_uploads[0].1.status, UploadStatus::Completed));
    match &client.outbox[1] {
        Outgoing::Server(ServerMessage::SendMessage(m)) => assert_eq!(m.get_data(), vec![121, 0, 0, 0, 244, 1, 0, 0]),
        other => panic!("unexpected: {other:?}"),
    }
    // Ann's file is offered in the freed slot.
    assert!(matches!(&client.outbox[2], Outgoing::Offer(offer) if offer.requester_key == "ann"));
}

#[test]
fn a_failed_upload_fails_the_downloads_it_names() {
    let mut client = Client::new(ClientContext::new());
    for (token, user, file) in [(1u32, "bob", "a"), (2, "bob", "b"), (3, "ann", "a")] {
        client.context.downloads.push(DownloadEntry {
            token,
            username: user.to_string(),
            filename: file.to_string(),
            status: DownloadStatus::InProgress,
        });
    }
    client.process_failed_uploads("bob", Some("a"), None);
    assert_eq!(client.context.downloads.len(), 2);
    assert_eq!(
        client.context.download_events,
        vec![(1, DownloadStatus::Failed(Some("The upload failed on the other side".to_string())))]
    );
    client.process_failed_uploads("bob", None, Some("Banned"));
    assert_eq!(client.context.downloads.len(), 1);
    assert_eq!(client.context.download_events[1], (2, DownloadStatus::Failed(Some("Banned".to_string()))));
}

#[test]
fn ignoring_someone_drops_what_they_queued() {
    let mut client = Client::new(ClientContext::new());
    client.context.enqueue_upload("bob", "a.mp3", String::new(), 1);
    client.context.enqueue_upload("ann", "b.mp3", String::new(), 2);
    client.set_ignored(vec!["bob".to_string()]);
    assert_eq!(client.context.upload_queue.len(), 1);
    assert_eq!(client.context.upload_queue[0].downloader, "ann");
    let events = client.take_upload_events();
    assert_eq!(events.len(), 2);
    assert!(client.take_upload_events().is_empty());
    assert!(!client.is_privileged("ann"));
}

#[test]
fn serving_a_token_again_replaces_what_was_filed_under_it() {
    let mut client = Client::new(ClientContext::new());
    client.context.enqueue_upload("bob", "a.mp3", String::new(), 10);
    client.pump_upload_queue();
    assert!(client.begin_serve(0).is_some());
    client.finish_serve(0, UploadStatus::Completed, None);
    // The token counter comes round to the same token.
    client.context.next_token = 0;
    client.context.enqueue_upload("ann", "b.mp3", String::new(), 2);
    client.pump_upload_queue();
    assert!(client.begin_serve(0).is_some());
    let under_zero: Vec<_> = client.context.active_uploads.iter().filter(|e| e.0 == 0).collect();
    assert_eq!(under_zero.len(), 1);
    assert_eq!(under_zero[0].1.username, "ann");
    assert!(client.context.uploads.iter().all(|e| e.0 != 0));
}

#[test]
fn an_offer_never_takes_a_token_still_in_use() {
    let mut client = Client::new(ClientContext::new());
    client.set_upload_slots(2);
    client.context.enqueue_upload("bob", "a.mp3", String::new(), 10);
    client.pump_upload_queue();
    assert_eq!(client.context.uploads[0].0, 0);
    // The counter comes round to a token an offer still holds.
    client.context.next_token = 0;
    client.context.enqueue_upload("ann", "b.mp3", String::new(), 2);
    client.pump_upload_queue();
    assert_eq!(client.context.uploads.len(), 2);
    assert_eq!(client.context.uploads[1].0, 1);
    assert_eq!(client.context.next_token, 2);
    assert!(matches!(&client.outbox[1], Outgoing::Offer(offer) if offer.token == 1 && offer.requester_key == "ann"));
}
