use redstore::inbound::{ConfigMessage, InboundMessage};
use redstore::outbound::OutboundMessage;
use redstore::server::handle_message;
use redstore::store::Database;

fn set(key: &str, value: &str) -> InboundMessage {
    InboundMessage::SetValue {
        key: key.to_string(),
        value: value.to_string(),
        expires_at: None,
    }
}

fn get(key: &str) -> InboundMessage {
    InboundMessage::Get {
        key: key.to_string(),
    }
}

#[test]
fn each_command_gets_its_reply() {
    let mut db = Database::new();
    assert!(matches!(
        handle_message(&mut db, &InboundMessage::Ping, 0),
        OutboundMessage::Pong
    ));
    match handle_message(&mut db, &InboundMessage::Echo("hey".to_string()), 0) {
        OutboundMessage::Echo(s) => assert_eq!(s, "hey"),
        other => panic!("expected an echo reply, got {:?}", other),
    }
    assert!(matches!(
        handle_message(&mut db, &set("k", "v"), 0),
        OutboundMessage::Okay
    ));
    match handle_message(&mut db, &get("k"), 0) {
        OutboundMessage::Get(v) => assert_eq!(v, Some("v".to_string())),
        other => panic!("expected a read reply, got {:?}", other),
    }
    match handle_message(
        &mut db,
        &InboundMessage::Keys {
            pattern: "*".to_string(),
        },
        0,
    ) {
        OutboundMessage::Keys(ks) => assert_eq!(ks, vec!["k".to_string()]),
        other => panic!("expected a key listing, got {:?}", other),
    }
}

#[test]
fn config_get_reads_the_settings_map() {
    let mut db = Database::new();
    db.config_setup(&[redstore::cli::CliParam::Dir("/data".to_string())]);
    let msg = InboundMessage::Config(ConfigMessage::Get {
        key: "dir".to_string(),
    });
    match handle_message(&mut db, &msg, 0) {
        OutboundMessage::ConfigGet { key, value } => {
            assert_eq!(key, "dir");
            assert_eq!(value, Some("/data".to_string()));
        }
        other => panic!("expected a settings reply, got {:?}", other),
    }
    let missing = InboundMessage::Config(ConfigMessage::Get {
        key: "dbfilename".to_string(),
    });
    match handle_message(&mut db, &missing, 0) {
        OutboundMessage::ConfigGet { key, value } => {
            assert_eq!(key, "dbfilename");
            assert_eq!(value, None);
        }
        other => panic!("expected a settings reply, got {:?}", other),
    }
}

#[test]
fn acknowledged_writes_on_distinct_keys_stay_visible() {
    // Several connections store distinct keys in some serial order, as the
    // store's mutual exclusion arranges; after each acknowledgement, a read
    // of that key from anywhere returns the stored value.
    let mut db = Database::new();
    let keys = ["alpha", "beta", "gamma", "delta"];
    for (i, key) in keys.iter().enumerate() {
        let reply = handle_message(&mut db, &set(key, &format!("value-{}", i)), i as u128);
        assert!(matches!(reply, OutboundMessage::Okay));
    }
    // Interleave unrelated traffic, then read every key back.
    handle_message(&mut db, &InboundMessage::Ping, 50);
    handle_message(&mut db, &set("unrelated", "x"), 60);
    handle_message(
        &mut db,
        &InboundMessage::Keys {
            pattern: "*".to_string(),
        },
        70,
    );
    for (i, key) in keys.iter().enumerate() {
        match handle_message(&mut db, &get(key), 1000 + i as u128) {
            OutboundMessage::Get(v) => assert_eq!(v, Some(format!("value-{}", i))),
            other => panic!("expected a read reply, got {:?}", other),
        }
    }
}
