use soulseek_rs::actor::server_actor::ServerMessage;
use soulseek_rs::message::Message;
use soulseek_rs::message::server::admin_message::AdminMessageHandler;
use soulseek_rs::message::server::change_password::{ChangePasswordHandler, SetAsideHandler, SET_ASIDE};
use soulseek_rs::message::server::embedded::{EmbeddedMessageHandler, SEARCH};
use soulseek_rs::message::server::login::LoginHandler;
use soulseek_rs::message::server::MessageFactory;

/// A message as a handler sees it: a code, then what `fill` writes, read
/// from just after the length and the code.
fn framed(fill: impl FnOnce(&mut Message)) -> Message {
    let mut m = Message::new();
    m.write_int32(0);
    fill(&mut m);
    let mut framed = Message::new_with_data(m.get_buffer());
    framed.set_pointer(8);
    framed
}

#[test]
fn the_confirmation_carries_the_new_password() {
    let mut message = framed(|m| {
        m.write_string("hunter3");
    });
    match ChangePasswordHandler.handle(&mut message) {
        Some(ServerMessage::PasswordChanged(password)) => {
            assert_eq!(password, "hunter3");
        }
        other => panic!("expected the confirmation, got {other:?}"),
    }
}

#[test]
fn a_truncated_confirmation_is_not_a_confirmation() {
    let mut message = framed(|_| {});
    assert!(ChangePasswordHandler.handle(&mut message).is_none());
}

#[test]
fn set_aside_codes_are_read_and_dropped() {
    for code in SET_ASIDE {
        let handler = SetAsideHandler(code);
        assert_eq!(handler.get_code(), code);
        let mut message = framed(|m| {
            m.write_int32(5);
        });
        assert!(handler.handle(&mut message).is_none());
    }
    assert_eq!(ChangePasswordHandler.get_code(), 142);
}

#[test]
fn a_wrapped_search_arrives_as_a_search() {
    let mut message = framed(|m| {
        m.write_int8(SEARCH);
        m.write_int32(0);
        m.write_string("velvet_hare");
        m.write_int32(4242);
        m.write_string("aphex twin");
    });

    match EmbeddedMessageHandler.handle(&mut message) {
        Some(ServerMessage::FileSearchRequest { username, token, query }) => {
            assert_eq!(username, "velvet_hare");
            assert_eq!(token, 4242);
            assert_eq!(query, "aphex twin");
        }
        other => panic!("unexpected: {other:?}"),
    }
}

#[test]
fn anything_else_in_the_wrapper_is_left_alone() {
    // Branch levels, roots and pings are about a tree this client is not
    // part of. Reading them as searches would mean answering nonsense.
    for code in [0u8, 4, 5] {
        let mut message = framed(|m| {
            m.write_int8(code);
            m.write_int32(7);
        });
        assert!(EmbeddedMessageHandler.handle(&mut message).is_none(), "code {code} should be ignored");
    }
}

#[test]
fn a_search_with_nothing_in_it_is_not_forwarded() {
    let mut message = framed(|m| {
        m.write_int8(SEARCH);
        m.write_int32(0);
        m.write_string("someone");
        m.write_int32(1);
        m.write_string("");
    });

    assert!(EmbeddedMessageHandler.handle(&mut message).is_none(), "an empty query matches everything");
}

#[test]
fn a_refusal_carries_its_reason() {
    let mut message = framed(|m| {
        m.write_int8(0);
        m.write_string("INVALIDPASS");
    });
    match LoginHandler.handle(&mut message) {
        Some(ServerMessage::LoginRejected { reason, detail }) => {
            assert_eq!(reason, "INVALIDPASS");
            assert_eq!(detail, None);
        }
        other => panic!("expected a rejection, got {other:?}"),
    }
}

#[test]
fn a_bad_name_says_what_is_wrong_with_it() {
    let mut message = framed(|m| {
        m.write_int8(0);
        m.write_string("INVALIDUSERNAME");
        m.write_string("Nick too long.");
    });
    match LoginHandler.handle(&mut message) {
        Some(ServerMessage::LoginRejected { reason, detail }) => {
            assert_eq!(reason, "INVALIDUSERNAME");
            assert_eq!(detail.as_deref(), Some("Nick too long."));
        }
        other => panic!("expected a rejection, got {other:?}"),
    }
}

#[test]
fn a_login_with_no_reason_is_a_plain_failure_and_one_that_succeeds_is_a_success() {
    let mut message = framed(|m| {
        m.write_int8(0);
    });
    assert!(matches!(LoginHandler.handle(&mut message), Some(ServerMessage::LoginStatus(false))));
    let mut message = framed(|m| {
        m.write_int8(1);
        m.write_string("welcome");
    });
    assert!(matches!(LoginHandler.handle(&mut message), Some(ServerMessage::LoginStatus(true))));
    assert_eq!(LoginHandler.get_code(), 1);
}

#[test]
fn an_admin_message_is_passed_on_unless_empty() {
    let mut message = framed(|m| {
        m.write_string("maintenance at noon");
    });
    match AdminMessageHandler.handle(&mut message) {
        Some(ServerMessage::AdminMessage(text)) => assert_eq!(text, "maintenance at noon"),
        other => panic!("unexpected: {other:?}"),
    }
    let mut empty = framed(|m| {
        m.write_string("");
    });
    assert!(AdminMessageHandler.handle(&mut empty).is_none());
    assert_eq!(AdminMessageHandler.get_code(), 66);
    assert_eq!(EmbeddedMessageHandler.get_code(), 93);
}

#[test]
fn an_upload_speed_goes_out_under_code_121() {
    let m = MessageFactory::build_send_upload_speed(0x0102_0304);
    assert_eq!(m.get_data(), vec![121, 0, 0, 0, 4, 3, 2, 1]);
}
