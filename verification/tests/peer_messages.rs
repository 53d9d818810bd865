use soulseek_rs::message::Message;
use soulseek_rs::message::peer::folder_contents::{build_folder_contents, build_folder_contents_request, parse_folder_contents, FolderContentsRequest, FolderContentsResponse};
use soulseek_rs::message::peer::place_in_queue_request::{build_place_in_queue_request, PlaceInQueueRequest};
use soulseek_rs::message::peer::upload_denied::{build_upload_denied, plain, UploadDeniedHandler};
use soulseek_rs::message::peer::user_info::{build_user_info, build_user_info_request, parse_user_info, PeerInfo, UserInfoReply, UserInfoRequest};
use soulseek_rs::message::peer::{SharedDirectory, SharedFileEntry, MAX_PICTURE};
use soulseek_rs::peer::PeerMessage;
use soulseek_rs::utils::zlib::compress;

/// A message as a handler sees it: a code, then what `fill` writes, read
/// from just after the length and the code.
fn framed(fill: impl FnOnce(&mut Message)) -> Message {
    let mut m = Message::new();
    m.write_int32(0);
    fill(&mut m);
    let mut framed = Message::new_with_data(m.get_buffer());
    framed.set_pointer(8);
    framed
}

#[test]
fn a_folder_listing_round_trips() {
    let dirs = vec![SharedDirectory {
        name: "music\\album".to_string(),
        files: vec![
            SharedFileEntry {
                name: "one.flac".to_string(),
                size: 40,
                attributes: vec![(0, 992), (1, 214)],
            },
            SharedFileEntry::bare("two.flac".to_string(), 50),
        ],
    }];
    let built = build_folder_contents(7, "music\\album", &dirs);
    let mut message = Message::new_with_data(built.get_data());
    message.set_pointer(4);
    let (token, folder, back) = parse_folder_contents(&mut message).unwrap();
    assert_eq!(token, 7);
    assert_eq!(folder, "music\\album");
    assert_eq!(back, dirs);
}

#[test]
fn a_hostile_count_does_not_hang() {
    let mut payload = Message::new();
    payload.write_int32(1);
    payload.write_string("x");
    payload.write_int32(u32::MAX);
    let framed = compress(&payload.get_data());
    let mut message = Message::new_with_data(framed);
    message.set_pointer(0);
    let (_, _, dirs) = parse_folder_contents(&mut message).unwrap();
    assert!(dirs.is_empty());
}

#[test]
fn a_folder_reply_that_is_not_compressed_is_dropped() {
    let mut message = framed(|m| {
        m.write_int32(7);
        m.write_string("music");
    });
    assert!(parse_folder_contents(&mut message).is_none());
    assert!(FolderContentsResponse.handle(&mut message).is_none());
    assert_eq!(FolderContentsResponse.get_code(), 37);
}

#[test]
fn a_folder_request_names_its_token_and_folder() {
    let built = build_folder_contents_request(9, "ab");
    assert_eq!(built.get_data(), vec![36, 0, 0, 0, 9, 0, 0, 0, 2, 0, 0, 0, 97, 98]);
    let mut message = Message::new_with_data(built.get_data());
    message.set_pointer(4);
    match FolderContentsRequest.handle(&mut message) {
        Some(PeerMessage::FolderContentsRequested { token, folder }) => {
            assert_eq!(token, 9);
            assert_eq!(folder, "ab");
        }
        other => panic!("unexpected: {other:?}"),
    }
    let mut empty = framed(|m| {
        m.write_int32(9);
        m.write_string("");
    });
    assert!(FolderContentsRequest.handle(&mut empty).is_none());
}

#[test]
fn the_asked_about_filename_is_forwarded() {
    let mut message = framed(|m| {
        m.write_string("@@share\\track.mp3");
    });

    match PlaceInQueueRequest.handle(&mut message) {
        Some(PeerMessage::IncomingPlaceInQueueRequest(filename)) => {
            assert_eq!(filename, "@@share\\track.mp3");
        }
        other => panic!("unexpected: {other:?}"),
    }
}

#[test]
fn a_request_names_the_file_under_code_51() {
    let expect: Vec<u8> = [
        51, 0, 0, 0, // code
        17, 0, 0, 0, 64, 64, 115, 104, 97, 114, 101, 92, 116, 114, 97, 99, 107, 46, 109, 112,
        51, // "@@share\\track.mp3"
    ]
    .to_vec();

    assert_eq!(expect, build_place_in_queue_request("@@share\\track.mp3").get_data());
}

#[test]
fn a_queued_reason_is_not_a_failure() {
    let mut message = framed(|m| {
        m.write_string("@@share\\gone.mp3");
        m.write_string("Queued");
    });

    assert!(UploadDeniedHandler.handle(&mut message).is_none());
}

#[test]
fn the_denied_filename_is_forwarded() {
    let mut message = framed(|m| {
        m.write_string("@@share\\gone.mp3");
        m.write_string("File not shared.");
    });

    match UploadDeniedHandler.handle(&mut message) {
        Some(PeerMessage::UploadFailed { filename, reason }) => {
            assert_eq!(filename, "@@share\\gone.mp3");
            assert_eq!(reason.as_deref(), Some("The user no longer shares this file"));
        }
        other => panic!("unexpected: {other:?}"),
    }
}

#[test]
fn a_denial_we_build_reads_back_through_the_handler() {
    let built = build_upload_denied("@@share\\a.mp3", "Too many files");
    let mut message = Message::new_with_data(built.get_buffer());
    message.set_pointer(8);
    match UploadDeniedHandler.handle(&mut message) {
        Some(PeerMessage::UploadFailed { filename, reason }) => {
            assert_eq!(filename, "@@share\\a.mp3");
            assert_eq!(reason, Some(plain("Too many files")));
        }
        other => panic!("unexpected: {other:?}"),
    }
}

#[test]
fn known_reasons_read_plainly_with_or_without_a_full_stop() {
    assert_eq!(plain("Pending shutdown."), plain("Pending shutdown"));
    assert_eq!(plain("Too many megabytes"), "You have queued as much data as this user allows");
    assert_eq!(plain("Banned"), "The user does not share with you");
}

#[test]
fn an_unknown_reason_is_passed_on_as_it_came() {
    assert_eq!(plain(" Away "), "The user declined: Away");
    assert_eq!(plain(""), "The user declined the download");
}

#[test]
fn every_known_reason_reads_plainly() {
    assert_eq!(plain("Cancelled"), "The user cancelled the upload");
    assert_eq!(plain("File read error."), "The user could not read this file");
    assert_eq!(plain("Too many files."), "You have queued as many files as this user allows");
    assert_eq!(plain("Disallowed extension"), "The user does not share this kind of file");
    assert_eq!(plain("  File not shared.  "), "The user no longer shares this file");
    assert_eq!(plain("..."), "The user declined the download");
    assert_eq!(plain("Busy."), "The user declined: Busy.");
    assert_eq!(UploadDeniedHandler.get_code(), 50);
}

#[test]
fn a_denial_names_file_and_reason_under_code_50() {
    let built = build_upload_denied("a", "No");
    assert_eq!(built.get_data(), vec![50, 0, 0, 0, 1, 0, 0, 0, 97, 2, 0, 0, 0, 78, 111]);
    assert_eq!(built.get_buffer(), vec![15, 0, 0, 0, 50, 0, 0, 0, 1, 0, 0, 0, 97, 2, 0, 0, 0, 78, 111]);
}

#[test]
fn user_info_round_trips_with_and_without_a_picture() {
    for picture in [None, Some(vec![1u8, 2, 3, 4])] {
        let info = PeerInfo {
            description: "nothing much".to_string(),
            picture,
            upload_slots: 3,
            queue_length: 11,
            free_slots: true,
        };
        let built = build_user_info(&info);
        let mut message = Message::new_with_data(built.get_data());
        message.set_pointer(4);
        assert_eq!(parse_user_info(&mut message), info);
    }
}

#[test]
fn a_truncated_reply_does_not_panic() {
    let mut message = Message::new();
    message.write_string("only a description");
    let mut message = Message::new_with_data(message.get_data());
    message.set_pointer(0);
    let info = parse_user_info(&mut message);
    assert_eq!(info.description, "only a description");
    assert_eq!(info.upload_slots, 0);
}

#[test]
fn an_empty_picture_reads_back_as_none() {
    let info = PeerInfo {
        description: "x".to_string(),
        picture: Some(Vec::new()),
        upload_slots: 1,
        queue_length: 2,
        free_slots: false,
    };
    let built = build_user_info(&info);
    let mut message = Message::new_with_data(built.get_data());
    message.set_pointer(4);
    let back = parse_user_info(&mut message);
    assert_eq!(back.picture, None);
    assert_eq!(back.upload_slots, 1);
    assert_eq!(back.queue_length, 2);
}

#[test]
fn user_info_requests_and_replies_go_through_their_handlers() {
    assert_eq!(build_user_info_request().get_data(), vec![15, 0, 0, 0]);
    let mut message = framed(|_| {});
    assert!(matches!(UserInfoRequest.handle(&mut message), Some(PeerMessage::UserInfoRequested)));
    let info = PeerInfo {
        description: "hi".to_string(),
        picture: None,
        upload_slots: 2,
        queue_length: 0,
        free_slots: true,
    };
    let built = build_user_info(&info);
    let mut message = Message::new_with_data(built.get_data());
    message.set_pointer(4);
    match UserInfoReply.handle(&mut message) {
        Some(PeerMessage::UserInfoReceived(back)) => assert_eq!(back, info),
        other => panic!("unexpected: {other:?}"),
    }
    assert_eq!(UserInfoRequest.get_code(), 15);
    assert_eq!(UserInfoReply.get_code(), 16);
}

#[test]
fn a_peer_picture_is_kept_up_to_four_megabytes() {
    assert_eq!(MAX_PICTURE, 4 * 1024 * 1024);
    for (size, kept) in [(MAX_PICTURE, true), (MAX_PICTURE + 1, false)] {
        let info = PeerInfo {
            description: "big".to_string(),
            picture: Some(vec![7u8; size]),
            upload_slots: 5,
            queue_length: 6,
            free_slots: true,
        };
        let built = build_user_info(&info);
        let mut message = Message::new_with_data(built.get_data());
        message.set_pointer(4);
        let back = parse_user_info(&mut message);
        assert_eq!(back.picture.is_some(), kept);
        if kept {
            assert_eq!(back.picture.unwrap().len(), size);
        }
        assert_eq!(back.description, "big");
        assert_eq!(back.upload_slots, 5);
        assert_eq!(back.queue_length, 6);
        assert!(back.free_slots);
    }
}
