use redstore::inbound::{decode, decode_text, ConfigMessage, DecodeError, InboundMessage};
use redstore::outbound::{
    create_array_reply, create_bulk_strings_reply, create_null_bulk_strings_reply,
    create_simple_string_reply, OutboundMessage,
};

#[test]
fn encoding_get_replies_matches_the_wire_format() {
    let some = OutboundMessage::Get(Some("bar".to_string()));
    assert_eq!(some.into_string().as_bytes(), b"$3\r\nbar\r\n");
    let none = OutboundMessage::Get(None);
    assert_eq!(none.into_string().as_bytes(), b"$-1\r\n");
}

#[test]
fn encoding_simple_replies() {
    assert_eq!(OutboundMessage::Okay.into_string(), "+OK\r\n");
    assert_eq!(OutboundMessage::Pong.into_string(), "+PONG\r\n");
    assert_eq!(
        OutboundMessage::Echo("hey".to_string()).into_string(),
        "+hey\r\n"
    );
    assert_eq!(create_simple_string_reply("OK"), "+OK\r\n");
    assert_eq!(create_null_bulk_strings_reply(), "$-1\r\n");
}

#[test]
fn encoding_arrays_and_bulk_strings() {
    assert_eq!(
        create_bulk_strings_reply(vec!["a".to_string(), "bcd".to_string()]),
        "$1\r\na\r\n$3\r\nbcd\r\n"
    );
    assert_eq!(
        create_array_reply(vec!["mykey".to_string(), "other".to_string()]),
        "*2\r\n$5\r\nmykey\r\n$5\r\nother\r\n"
    );
    assert_eq!(create_array_reply(Vec::new()), "*0\r\n");
    assert_eq!(
        OutboundMessage::Keys(vec!["mykey".to_string()]).into_string(),
        "*1\r\n$5\r\nmykey\r\n"
    );
    // A bulk string's length counts bytes, not characters.
    assert_eq!(
        create_bulk_strings_reply(vec!["é".to_string()]),
        "$2\r\né\r\n"
    );
    assert_eq!(
        create_bulk_strings_reply(vec!["aaaaaaaaaaaa".to_string()]),
        "$12\r\naaaaaaaaaaaa\r\n"
    );
}

#[test]
fn encoding_config_replies() {
    let present = OutboundMessage::ConfigGet {
        key: "dir".to_string(),
        value: Some("/data".to_string()),
    };
    assert_eq!(present.into_string(), "*2\r\n$3\r\ndir\r\n$5\r\n/data\r\n");
    let absent = OutboundMessage::ConfigGet {
        key: "dir".to_string(),
        value: None,
    };
    // An absent value travels as the literal null bulk string element.
    assert_eq!(absent.into_string(), "*2\r\n$3\r\ndir\r\n$3\r\n$-1\r\n");
}

#[test]
fn decoding_a_framed_set_with_expiry() {
    let buffer = b"*5\r\n$3\r\nSET\r\n$3\r\nfoo\r\n$3\r\nbar\r\n$2\r\nPX\r\n$3\r\n100\r\n";
    let now_ms: u128 = 1700000000000;
    match decode(buffer, now_ms).unwrap() {
        InboundMessage::SetValue {
            key,
            value,
            expires_at,
        } => {
            assert_eq!(key, "foo");
            assert_eq!(value, "bar");
            assert_eq!(expires_at, Some(now_ms + 100));
        }
        other => panic!("expected a store command, got {:?}", other),
    }
}

#[test]
fn decoding_a_set_without_expiry() {
    match decode(b"*3\r\n$3\r\nset\r\n$1\r\nk\r\n$1\r\nv\r\n", 5).unwrap() {
        InboundMessage::SetValue {
            key,
            value,
            expires_at,
        } => {
            assert_eq!(key, "k");
            assert_eq!(value, "v");
            assert_eq!(expires_at, None);
        }
        other => panic!("expected a store command, got {:?}", other),
    }
}

#[test]
fn decoding_the_other_commands() {
    assert!(matches!(
        decode(b"*1\r\n$4\r\nPING\r\n", 0).unwrap(),
        InboundMessage::Ping
    ));
    match decode(b"*2\r\n$4\r\nEcho\r\n$3\r\nhey\r\n", 0).unwrap() {
        InboundMessage::Echo(s) => assert_eq!(s, "hey"),
        other => panic!("expected an echo, got {:?}", other),
    }
    match decode(b"*2\r\n$3\r\nGET\r\n$3\r\nfoo\r\n", 0).unwrap() {
        InboundMessage::Get { key } => assert_eq!(key, "foo"),
        other => panic!("expected a read, got {:?}", other),
    }
    // The one-character line `*` is an argument, not framing.
    match decode(b"*2\r\n$4\r\nKEYS\r\n$1\r\n*\r\n", 0).unwrap() {
        InboundMessage::Keys { pattern } => assert_eq!(pattern, "*"),
        other => panic!("expected a key listing, got {:?}", other),
    }
    match decode(b"*3\r\n$6\r\nCONFIG\r\n$3\r\nGET\r\n$3\r\ndir\r\n", 0).unwrap() {
        InboundMessage::Config(ConfigMessage::Get { key }) => assert_eq!(key, "dir"),
        other => panic!("expected a settings read, got {:?}", other),
    }
}

#[test]
fn decode_failures_carry_the_offending_text() {
    match decode(b"", 0).unwrap_err() {
        DecodeError::Malformed(text) => assert_eq!(text, ""),
        other => panic!("expected a malformed buffer, got {:?}", other),
    }
    match decode(b"*1\r\n$5\r\nFLUSH\r\n", 0).unwrap_err() {
        DecodeError::Malformed(text) => assert_eq!(text, "*1\r\n$5\r\nFLUSH\r\n"),
        other => panic!("expected a malformed buffer, got {:?}", other),
    }
    match decode(b"*2\r\n$3\r\nSET\r\n$1\r\nk\r\n", 0).unwrap_err() {
        DecodeError::MissingArguments(cmd) => assert_eq!(cmd, "SET"),
        other => panic!("expected missing arguments, got {:?}", other),
    }
    match decode(b"*1\r\n$4\r\nECHO\r\n", 0).unwrap_err() {
        DecodeError::MissingArguments(cmd) => assert_eq!(cmd, "ECHO"),
        other => panic!("expected missing arguments, got {:?}", other),
    }
    match decode(b"*3\r\n$6\r\nCONFIG\r\n$3\r\nSET\r\n$3\r\ndir\r\n", 0).unwrap_err() {
        DecodeError::UnknownConfigAction(action) => assert_eq!(action, "SET"),
        other => panic!("expected an unknown settings action, got {:?}", other),
    }
    match decode(
        b"*5\r\n$3\r\nSET\r\n$1\r\nk\r\n$1\r\nv\r\n$2\r\nPX\r\n$4\r\nsoon\r\n",
        0,
    )
    .unwrap_err()
    {
        DecodeError::InvalidExpiry(line) => assert_eq!(line, "soon"),
        other => panic!("expected an invalid expiry, got {:?}", other),
    }
}

#[test]
fn a_trailing_px_token_without_a_count_is_ignored() {
    match decode_text("SET\r\nk\r\nv\r\nPX\r\n", 0).unwrap() {
        InboundMessage::SetValue { expires_at, .. } => assert_eq!(expires_at, None),
        other => panic!("expected a store command, got {:?}", other),
    }
}

#[test]
fn command_names_match_ignoring_ascii_case() {
    assert!(matches!(
        decode_text("ping\r\n", 0).unwrap(),
        InboundMessage::Ping
    ));
    assert!(matches!(
        decode_text("pInG\r\n", 0).unwrap(),
        InboundMessage::Ping
    ));
    // The expiry option is matched the same way.
    match decode_text("set\r\nk\r\nv\r\npx\r\n250\r\n", 1000).unwrap() {
        InboundMessage::SetValue { expires_at, .. } => assert_eq!(expires_at, Some(1250)),
        other => panic!("expected a store command, got {:?}", other),
    }
}

#[test]
fn invalid_bytes_become_replacement_characters() {
    // 0xFF is no UTF-8: the echoed argument is the replacement character,
    // never the raw byte handed back unchanged.
    match decode(b"ECHO\r\n\xFFx\r\n", 0).unwrap() {
        InboundMessage::Echo(s) => assert_eq!(s, "\u{FFFD}x"),
        other => panic!("expected an echo, got {:?}", other),
    }
}
