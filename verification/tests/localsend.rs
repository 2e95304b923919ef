use lib::localsend::{
    answer, awaiting, finding, peers_step, request_leg, send_args, sends, sent, Finding, Leg, Outcome, Peer,
    NOTHING_TO_SEND,
};

#[test]
fn only_the_transfer_s_own_event_line_is_a_transfer() {
    let discovered = "D [1] Sent Phone (10.0.0.4)\nD [2] Failed Phone (10.0.0.5)";
    assert!(sent(discovered, "Sent Phone").is_none());
    assert!(sent(discovered, "Failed Phone").is_none());
    assert!(sent("S Sent Phone: Sent 1 file (61 B, took 0s)", "Sent Phone").expect("a verdict").is_ok());
    let refused = sent("S Clean Lemon: Failed to send: connection refused", "Clean Lemon").expect("a verdict");
    assert!(refused.unwrap_err().contains("connection refused"));
    // The peer's own name is what anchors it, so another device's line is not this one's.
    assert!(sent("S Other Box: Sent 1 file (61 B, took 0s)", "Clean Lemon").is_none());
}

#[test]
fn the_last_event_line_of_the_device_decides_and_its_dots_are_trimmed() {
    let text = "  S Box: Sent 1 file (1 B, took 0s)  \r\nS Box: Failed to send: busy...\n";
    assert_eq!(sent(text, "Box"), Some(Err("LocalSend could not send to Box: Failed to send: busy.".to_string())));
    assert_eq!(sent("S Box: Failed to send: busy\nS Box: waiting", "Box"), None, "a later line that says neither is no verdict");
}

#[test]
fn each_leg_is_answered_in_its_own_shape() {
    assert!(sends("send"));
    assert!(!sends("peers"));
    assert_eq!(answer(4, &Outcome::Sent(Ok(()))), r#"{"t":"localsendsent","id":4,"ok":true,"reason":""}"#);
    assert_eq!(
        answer(5, &Outcome::Sent(Err("a \"quoted\" refusal".to_string()))),
        r#"{"t":"localsendsent","id":5,"ok":false,"reason":"a \"quoted\" refusal"}"#
    );
    let peers = vec![
        Peer { index: 1, name: "Clean Lemon".to_string(), address: "192.168.21.23".to_string() },
        Peer { index: 2, name: "Box".to_string(), address: "10.0.0.5".to_string() },
    ];
    assert_eq!(
        answer(3, &Outcome::Peers(Ok(peers))),
        r#"{"t":"localsendpeers","id":3,"peers":[{"name":"Clean Lemon","address":"192.168.21.23"},{"name":"Box","address":"10.0.0.5"}],"reason":""}"#
    );
    assert_eq!(
        answer(6, &Outcome::Peers(Ok(Vec::new()))),
        r#"{"t":"localsendpeers","id":6,"peers":[],"reason":"no devices are answering on this network"}"#
    );
    assert_eq!(
        answer(7, &Outcome::Peers(Err("localsend-cli is not installed.".to_string()))),
        r#"{"t":"localsendpeers","id":7,"peers":[],"reason":"localsend-cli is not installed."}"#
    );
}

#[test]
fn nothing_to_send_is_refused_before_a_terminal_is_opened() {
    assert!(send_args(&[]).is_err());
    assert_eq!(send_args(&[]).unwrap_err(), NOTHING_TO_SEND);
    match request_leg("send", "Clean Lemon", &[], 3) {
        Leg::Answered(text) => assert_eq!(
            text,
            r#"{"t":"localsendsent","id":3,"ok":false,"reason":"LocalSend was given nothing to send."}"#
        ),
        _ => panic!("a send of nothing reaches no terminal"),
    }
}

#[test]
fn a_request_sends_its_paths_to_the_named_device_or_lists_the_devices() {
    match request_leg("send", "Clean Lemon", &[String::from("/a b")], 4) {
        Leg::Send(to, args) => {
            assert_eq!(to, "Clean Lemon");
            assert_eq!(args, vec!["-f", "/a b"]);
        },
        _ => panic!("a send with a path goes to the CLI"),
    }
    assert!(matches!(request_leg("peers", "", &[], 5), Leg::Peers));
}

#[test]
fn every_path_is_its_own_argument_after_its_own_flag() {
    let args = send_args(&[String::from("/home/me/a b.txt"), String::from("-rf")]).unwrap();
    assert_eq!(args, vec!["-f", "/home/me/a b.txt", "-f", "-rf"]);
}

fn peer(index: usize, name: &str) -> Peer {
    Peer { index, name: name.to_string(), address: String::from("10.0.0.4") }
}

#[test]
fn the_device_list_answers_once_a_device_or_a_refusal_shows_or_the_time_is_up() {
    assert!(peers_step(vec![], None, false).is_none());
    let found = peers_step(vec![peer(1, "Clean Lemon")], Some(String::from("no network")), true).unwrap().unwrap();
    assert_eq!(found.len(), 1);
    assert_eq!(peers_step(vec![], Some(String::from("no network")), true).unwrap().unwrap_err(), "no network");
    assert!(peers_step(vec![], None, true).unwrap().unwrap().is_empty());
}

#[test]
fn the_named_device_is_reached_from_the_first_row() {
    let listed = vec![peer(1, "Phone"), peer(2, "Clean Lemon"), peer(3, "Clean Lemon")];
    assert_eq!(finding("Clean Lemon", &listed, None, false), Finding::Press(1));
    assert_eq!(finding("Phone", &listed, None, false), Finding::Press(0));
    assert_eq!(finding("Tablet", &listed, None, false), Finding::Wait);
    assert_eq!(
        finding("Tablet", &listed, None, true),
        Finding::Refused(String::from("Tablet is not answering on this network any more."))
    );
    assert_eq!(finding("Phone", &listed, Some(String::from("refused")), false), Finding::Refused(String::from("refused")));
}

#[test]
fn a_cli_that_ended_without_its_sent_line_sent_nothing() {
    assert_eq!(awaiting("Clean Lemon", "S Clean Lemon: Sent 1 file (61 B, took 0s)", true, false), Some(Ok(())));
    assert_eq!(
        awaiting("Clean Lemon", "D [1] Clean Lemon (10.0.0.4)", true, false),
        Some(Err(String::from("LocalSend's own CLI ended without sending to Clean Lemon.")))
    );
    assert_eq!(awaiting("Clean Lemon", "D [1] Clean Lemon (10.0.0.4)", false, false), None);
    assert_eq!(
        awaiting("Clean Lemon", "S Clean Lemon: Sent 1 file", false, true),
        Some(Err(String::from("Clean Lemon did not accept the transfer.")))
    );
}
