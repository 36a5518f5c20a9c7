use iroh_chat_cli::crypto::{check_signature, iroh_secret_key, public_key_of, sign_bytes, SigCheck};
use iroh_chat_cli::input::{
    basename, feed_line, inline_save_name, make_send_file_msg, parse_command, split_first_space,
    Command, InlineError,
};
use iroh_chat_cli::members::Members;
use iroh_chat_cli::structs::{parse_raw_message, FrameError, MemDB, Message, Msg};
use iroh_chat_cli::subscribe::{handle_event, ChatEvent, SubscribeOutcome};
use iroh_chat_cli::ticket::{NodeAddrRec, TopicTicket};
use iroh_chat_cli::{my_func, MAX_FILESIZE};

fn new_db(name: &str) -> MemDB {
    MemDB::new(iroh_secret_key(), name.to_string())
}

#[test]
fn sign() {
    let secret_key = iroh_secret_key();
    let pub_key = public_key_of(&secret_key);

    let bts = b"Hello, world".to_vec();
    let signature = sign_bytes(&secret_key, &bts);
    let result = check_signature(&pub_key, &bts, &signature);
    assert!(matches!(result, SigCheck::Valid));

    println!("--> signature: {signature:?}");
}

#[test]
fn my_func_hands_back() {
    assert_eq!(my_func(42), 42);
}

#[test]
fn seal_open_round_trip_all_variants() {
    let db = new_db("alice");
    let (node_id, _) = db.node();
    let variants: Vec<Msg> = vec![
        Msg::AboutMe { name: "alice".to_string() },
        Msg::Bye,
        Msg::Message { text: "hello".to_string() },
        Msg::SendFile { filename: "hello.txt".to_string(), content: vec![1, 2, 3, 4, 5] },
        Msg::ShareFile {
            filename: "movie.mp4".to_string(),
            size: 777,
            ticket: "blobabc".to_string(),
        },
    ];
    for msg in variants {
        let frame = db.sign_msg(clone_msg(&msg));
        let (from, _at, message) = parse_raw_message(&frame).expect("frame should open");
        assert_eq!(from, node_id);
        assert_msg_eq(&message.into_msg(), &msg);
    }
}

fn clone_msg(m: &Msg) -> Msg {
    match m {
        Msg::AboutMe { name } => Msg::AboutMe { name: name.clone() },
        Msg::Bye => Msg::Bye,
        Msg::Message { text } => Msg::Message { text: text.clone() },
        Msg::SendFile { filename, content } => {
            Msg::SendFile { filename: filename.clone(), content: content.clone() }
        }
        Msg::ShareFile { filename, size, ticket } => {
            Msg::ShareFile { filename: filename.clone(), size: *size, ticket: ticket.clone() }
        }
    }
}

fn assert_msg_eq(a: &Msg, b: &Msg) {
    match (a, b) {
        (Msg::AboutMe { name: n1 }, Msg::AboutMe { name: n2 }) => assert_eq!(n1, n2),
        (Msg::Bye, Msg::Bye) => {}
        (Msg::Message { text: t1 }, Msg::Message { text: t2 }) => assert_eq!(t1, t2),
        (
            Msg::SendFile { filename: f1, content: c1 },
            Msg::SendFile { filename: f2, content: c2 },
        ) => {
            assert_eq!(f1, f2);
            assert_eq!(c1, c2);
        }
        (
            Msg::ShareFile { filename: f1, size: s1, ticket: t1 },
            Msg::ShareFile { filename: f2, size: s2, ticket: t2 },
        ) => {
            assert_eq!(f1, f2);
            assert_eq!(s1, s2);
            assert_eq!(t1, t2);
        }
        _ => panic!("variant mismatch"),
    }
}

#[test]
fn frame_mutation_after_signature_fails() {
    let db = new_db("alice");
    let mut frame = db.sign_msg(Msg::Message { text: "hello".to_string() });
    // flip one payload byte, well past the 96-byte prefix
    let k = frame.len() - 1;
    frame[k] ^= 0x01;
    assert!(parse_raw_message(&frame).is_err());

    let mut frame2 = db.sign_msg(Msg::Message { text: "hello".to_string() });
    // flip one signature byte
    frame2[40] ^= 0x01;
    assert!(matches!(parse_raw_message(&frame2), Err(FrameError::BadSignature)));
}

#[test]
fn framing_rejects_truncation() {
    for n in [0usize, 1, 32, 95, 96] {
        let short = vec![7u8; n];
        assert!(matches!(parse_raw_message(&short), Err(FrameError::TooShort)));
    }
    let db = new_db("alice");
    let frame = db.sign_msg(Msg::Bye);
    let truncated: Vec<u8> = frame[..96].to_vec();
    assert!(matches!(parse_raw_message(&truncated), Err(FrameError::TooShort)));
}

#[test]
fn bad_payload_is_rejected_even_if_signed() {
    let sk = iroh_secret_key();
    let pk = public_key_of(&sk);
    let junk = vec![9u8, 9, 9, 9, 9];
    let sig = sign_bytes(&sk, &junk);
    let mut frame = Vec::new();
    frame.extend_from_slice(&pk);
    frame.extend_from_slice(&sig);
    frame.extend_from_slice(&junk);
    assert!(matches!(parse_raw_message(&frame), Err(FrameError::BadPayload)));
}

#[test]
fn bad_timestamp_is_rejected() {
    // payload with nonce, an out-of-range millisecond count, and a Bye event
    let sk = iroh_secret_key();
    let pk = public_key_of(&sk);
    let mut payload = vec![0u8; 16];
    payload.extend_from_slice(&[255, 255, 255, 255, 255, 255, 255, 127]); // i64::MAX
    payload.push(2u8); // Bye
    let sig = sign_bytes(&sk, &payload);
    let mut frame = Vec::new();
    frame.extend_from_slice(&pk);
    frame.extend_from_slice(&sig);
    frame.extend_from_slice(&payload);
    assert!(matches!(parse_raw_message(&frame), Err(FrameError::BadTimestamp)));
}

#[test]
fn wrong_signature_logs_unknown_and_keeps_membership() {
    let alice = new_db("alice");
    let mut bob = new_db("bob");
    let (alice_id, _) = alice.node();

    // register alice first
    let hello = alice.sign_msg(Msg::AboutMe { name: "alice".to_string() });
    assert!(matches!(
        handle_event(&mut bob, ChatEvent::Received(hello)),
        SubscribeOutcome::NewPeer { .. }
    ));
    assert!(bob.members.get(&alice_id).is_some());

    // inject a frame with a corrupted signature
    let mut forged = alice.sign_msg(Msg::Bye);
    forged[50] ^= 0xff;
    let outcome = handle_event(&mut bob, ChatEvent::Received(forged));
    assert!(matches!(outcome, SubscribeOutcome::InvalidFrame { .. }));
    // membership unchanged
    assert!(bob.members.get(&alice_id).is_some());
}

#[test]
fn about_me_idempotent() {
    let alice = new_db("alice");
    let mut bob = new_db("bob");

    let first = alice.sign_msg(Msg::AboutMe { name: "alice".to_string() });
    let second = alice.sign_msg(Msg::AboutMe { name: "alice".to_string() });

    let o1 = handle_event(&mut bob, ChatEvent::Received(first));
    match o1 {
        SubscribeOutcome::NewPeer { name, .. } => assert_eq!(name, "alice"),
        _ => panic!("expected a new peer"),
    }
    let o2 = handle_event(&mut bob, ChatEvent::Received(second));
    assert!(matches!(o2, SubscribeOutcome::KnownPeer));
    assert_eq!(bob.members.len(), 1);
}

#[test]
fn bye_and_neighbor_down_both_remove() {
    let alice = new_db("alice");
    let mut bob = new_db("bob");
    let (alice_id, _) = alice.node();

    let hello = alice.sign_msg(Msg::AboutMe { name: "alice".to_string() });
    handle_event(&mut bob, ChatEvent::Received(hello));
    let bye = alice.sign_msg(Msg::Bye);
    let outcome = handle_event(&mut bob, ChatEvent::Received(bye));
    match outcome {
        SubscribeOutcome::PeerLeft { id, name, voluntary } => {
            assert_eq!(id, alice_id);
            assert_eq!(name.as_deref(), Some("alice"));
            assert!(voluntary);
        }
        _ => panic!("expected a departure"),
    }
    assert!(bob.members.get(&alice_id).is_none());

    let hello2 = alice.sign_msg(Msg::AboutMe { name: "alice".to_string() });
    handle_event(&mut bob, ChatEvent::Received(hello2));
    let outcome2 = handle_event(&mut bob, ChatEvent::NeighborDown(alice_id.clone()));
    match outcome2 {
        SubscribeOutcome::PeerLeft { voluntary, .. } => assert!(!voluntary),
        _ => panic!("expected a departure"),
    }
    assert!(bob.members.get(&alice_id).is_none());
}

#[test]
fn chat_line_attributed_to_sender() {
    let alice = new_db("alice");
    let mut bob = new_db("bob");
    let (alice_id, _) = alice.node();

    let hello = alice.sign_msg(Msg::AboutMe { name: "alice".to_string() });
    handle_event(&mut bob, ChatEvent::Received(hello));

    let chat = alice.sign_msg(Msg::Message { text: "hello".to_string() });
    let outcome = handle_event(&mut bob, ChatEvent::Received(chat));
    match outcome {
        SubscribeOutcome::Chat { id, name, text } => {
            assert_eq!(id, alice_id);
            assert_eq!(name.as_deref(), Some("alice"));
            assert_eq!(text, "hello");
        }
        _ => panic!("expected a chat line"),
    }
}

#[test]
fn inline_file_delivery_and_receive_cap() {
    let alice = new_db("alice");
    let mut bob = new_db("bob");

    let small = alice.sign_msg(Msg::SendFile {
        filename: "hello.txt".to_string(),
        content: vec![104, 101, 108, 108, 111],
    });
    match handle_event(&mut bob, ChatEvent::Received(small)) {
        SubscribeOutcome::SaveFile { filename, content, .. } => {
            assert_eq!(filename, "hello.txt");
            assert_eq!(content, vec![104, 101, 108, 108, 111]);
        }
        _ => panic!("expected a file to save"),
    }

    // over the cap: dropped even though correctly signed
    let big = alice.sign_msg(Msg::SendFile {
        filename: "big.bin".to_string(),
        content: vec![0u8; (MAX_FILESIZE + 1) as usize],
    });
    match handle_event(&mut bob, ChatEvent::Received(big)) {
        SubscribeOutcome::OversizeFile { filename, .. } => assert_eq!(filename, "big.bin"),
        _ => panic!("expected the oversize drop"),
    }
}

#[test]
fn send_side_size_cap() {
    let ok = make_send_file_msg("a.bin".to_string(), vec![0u8; MAX_FILESIZE as usize]);
    assert!(ok.is_some());
    let too_big = make_send_file_msg("a.bin".to_string(), vec![0u8; (MAX_FILESIZE + 1) as usize]);
    assert!(too_big.is_none());
}

#[test]
fn inline_save_name_checks() {
    assert!(matches!(
        inline_save_name("x.bin", &vec![0u8; (MAX_FILESIZE + 1) as usize]),
        Err(InlineError::Oversize)
    ));
    assert!(matches!(inline_save_name("dir/", &vec![1, 2, 3]), Err(InlineError::BadName)));
    assert!(matches!(inline_save_name("..", &vec![1, 2, 3]), Err(InlineError::BadName)));
    assert_eq!(inline_save_name("dir/sub/x.bin", &vec![1, 2, 3]).unwrap(), "x.bin");
}

#[test]
fn basename_extraction() {
    assert_eq!(basename("a/b.txt").as_deref(), Some("b.txt"));
    assert_eq!(basename("b.txt").as_deref(), Some("b.txt"));
    assert_eq!(basename("a/"), None);
    assert_eq!(basename("."), None);
    assert_eq!(basename("a/.."), None);
}

#[test]
fn membership_snapshot_sorted_by_name() {
    let mut members = Members::new();
    assert!(members.insert_if_absent(vec![3u8; 32], "carol".to_string()));
    assert!(members.insert_if_absent(vec![1u8; 32], "alice".to_string()));
    assert!(members.insert_if_absent(vec![2u8; 32], "bob".to_string()));
    assert!(!members.insert_if_absent(vec![1u8; 32], "imposter".to_string()));
    assert_eq!(members.len(), 3);
    assert_eq!(members.get(&vec![1u8; 32]).as_deref(), Some("alice"));

    let snapshot = members.snapshot_sorted_by_name();
    let names: Vec<&str> = snapshot.iter().map(|p| p.0.as_str()).collect();
    assert_eq!(names, vec!["alice", "bob", "carol"]);
    assert_eq!(snapshot[1].1, vec![2u8; 32]);

    assert_eq!(members.remove(&vec![2u8; 32]).as_deref(), Some("bob"));
    assert!(members.get(&vec![2u8; 32]).is_none());
    assert_eq!(members.len(), 2);
}

#[test]
fn ticket_round_trip_case_insensitive() {
    let ticket = TopicTicket {
        topic: vec![7u8; 32],
        nodes: vec![
            NodeAddrRec {
                node_id: vec![1u8; 32],
                relay_url: Some("https://relay.example/".to_string()),
                direct_addresses: vec!["192.0.2.1:4433".to_string(), "[2001:db8::1]:4433".to_string()],
            },
            NodeAddrRec {
                node_id: vec![2u8; 32],
                relay_url: None,
                direct_addresses: vec![],
            },
        ],
    };
    let text = ticket.base32_bytes();
    // format is lowercase
    assert!(text.iter().all(|c| !(65..=90).contains(c)));

    let parsed = TopicTicket::from_base32_bytes(&text).expect("ticket should parse");
    assert_ticket_eq(&parsed, &ticket);

    // parse tolerates uppercase
    let upper: Vec<u8> = text.iter().map(|c| c.to_ascii_uppercase()).collect();
    let parsed_upper = TopicTicket::from_base32_bytes(&upper).expect("uppercase should parse");
    assert_ticket_eq(&parsed_upper, &ticket);

    // garbage is refused
    assert!(TopicTicket::from_base32_bytes(&vec![b'!', b'@']).is_none());
}

fn assert_ticket_eq(a: &TopicTicket, b: &TopicTicket) {
    assert_eq!(a.topic, b.topic);
    assert_eq!(a.nodes.len(), b.nodes.len());
    for (x, y) in a.nodes.iter().zip(b.nodes.iter()) {
        assert_eq!(x.node_id, y.node_id);
        assert_eq!(x.relay_url, y.relay_url);
        assert_eq!(x.direct_addresses, y.direct_addresses);
    }
}

#[test]
fn command_parsing() {
    assert!(matches!(parse_command(&"::quit".to_string()), Command::Quit));
    assert!(matches!(parse_command(&"::me".to_string()), Command::Me));
    assert!(matches!(parse_command(&"::members".to_string()), Command::Members));
    match parse_command(&"::run echo 'a b'".to_string()) {
        Command::Run { args } => assert_eq!(args, vec!["echo".to_string(), "a b".to_string()]),
        _ => panic!("expected a run command"),
    }
    match parse_command(&"::send_file hello.txt".to_string()) {
        Command::SendFile { filepath } => assert_eq!(filepath, "hello.txt"),
        _ => panic!("expected a send command"),
    }
    match parse_command(&"::share_file movie.mp4".to_string()) {
        Command::ShareFile { filepath } => assert_eq!(filepath, "movie.mp4"),
        _ => panic!("expected a share command"),
    }
    match parse_command(&"::receive_file blobabc out.mp4".to_string()) {
        Command::ReceiveFile { ticket, filepath } => {
            assert_eq!(ticket, "blobabc");
            assert_eq!(filepath, "out.mp4");
        }
        _ => panic!("expected a receive command"),
    }
    assert!(matches!(parse_command(&"::send_file".to_string()), Command::BadUsage { .. }));
    assert!(matches!(parse_command(&"::run".to_string()), Command::BadUsage { .. }));
    assert!(matches!(parse_command(&":wat".to_string()), Command::Unknown { .. }));
    match parse_command(&"hello there".to_string()) {
        Command::Chat { text } => assert_eq!(text, "hello there"),
        _ => panic!("expected chat"),
    }
}

#[test]
fn line_assembly_continuation() {
    let mut buffer = String::new();
    assert!(feed_line(&mut buffer, "first part \n").is_none());
    assert_eq!(buffer, "first part\n");
    let done = feed_line(&mut buffer, "second part\n").expect("line should complete");
    assert_eq!(done, "first part\nsecond part");
    assert_eq!(buffer, "");
}

#[test]
fn split_first_space_basics() {
    let (head, rest) = split_first_space("::run echo hi", false);
    assert_eq!(head, "::run");
    assert_eq!(rest.as_deref(), Some("echo hi"));
    let (head2, rest2) = split_first_space("oneword", false);
    assert_eq!(head2, "oneword");
    assert!(rest2.is_none());
    let (head3, rest3) = split_first_space("padded  ", true);
    assert_eq!(head3, "padded");
    assert!(rest3.is_none());
    // trimming strips both ends: a leading space does not make an empty head
    let (head4, rest4) = split_first_space(" a b", true);
    assert_eq!(head4, "a");
    assert_eq!(rest4.as_deref(), Some("b"));
    let (head5, rest5) = split_first_space(" a b", false);
    assert_eq!(head5, "");
    assert_eq!(rest5.as_deref(), Some("a b"));
}

#[test]
fn payload_round_trip() {
    let msg = Msg::Message { text: "snowman \u{2603} and tab\tdone".to_string() };
    let message = Message::new(msg);
    let bytes = message.to_bytes();
    let back = iroh_chat_cli::structs::parse_payload(&bytes).expect("payload should parse");
    match back.into_msg() {
        Msg::Message { text } => assert_eq!(text, "snowman \u{2603} and tab\tdone"),
        _ => panic!("variant changed"),
    }
}
