use sha2::Digest;
use stegstr::bundle::{build_bundle, bundle_with_key, Bundle};
use stegstr::error::StegError;
use stegstr::event::{
    checked_event, create_kind1_event, ensure_stegstr_suffix, preimage_text, suffixed_bytes,
    write_json_string, Event,
};
use stegstr::keys::{signature_verifies, SecretKey};

fn ones() -> SecretKey {
    SecretKey::from_bytes(&[1u8; 32]).unwrap()
}

fn reference_pubkey(secret: &[u8]) -> String {
    let secp = secp256k1::Secp256k1::new();
    let pair = secp256k1::Keypair::from_seckey_slice(&secp, secret).unwrap();
    hex::encode(pair.x_only_public_key().0.serialize())
}

fn reference_preimage(pubkey: &str, created_at: u64, content: &str) -> String {
    let value = serde_json::Value::Array(vec![
        serde_json::Value::from(0),
        serde_json::Value::from(pubkey),
        serde_json::Value::from(created_at),
        serde_json::Value::from(1),
        serde_json::Value::Array(Vec::new()),
        serde_json::Value::from(content),
    ]);
    serde_json::to_string(&value).unwrap()
}

fn json_string(text: &str) -> String {
    let mut out = String::new();
    write_json_string(&mut out, text);
    out
}

#[test]
fn suffix_is_appended_once() {
    assert_eq!(ensure_stegstr_suffix("hi"), Ok("hi Sent by Stegstr.".to_string()));
    assert_eq!(
        ensure_stegstr_suffix("hi Sent by Stegstr."),
        Ok("hi Sent by Stegstr.".to_string())
    );
    assert_eq!(ensure_stegstr_suffix(""), Ok(" Sent by Stegstr.".to_string()));
    assert_eq!(
        ensure_stegstr_suffix("Sent by Stegstr."),
        Ok("Sent by Stegstr. Sent by Stegstr.".to_string())
    );
}

#[test]
fn suffix_twice_is_suffix_once() {
    for text in ["hi", "", "already there Sent by Stegstr.", "caf\u{e9}"] {
        let once = ensure_stegstr_suffix(text).unwrap();
        assert_eq!(ensure_stegstr_suffix(&once), Ok(once.clone()));
    }
    let long = "a".repeat(6000);
    let once = ensure_stegstr_suffix(&long).unwrap();
    assert_eq!(ensure_stegstr_suffix(&once), Ok(once.clone()));
    let edge = "b".repeat(4990);
    let once = ensure_stegstr_suffix(&edge).unwrap();
    assert_eq!(ensure_stegstr_suffix(&once), Ok(once.clone()));
}

#[test]
fn note_is_cut_to_5000_bytes() {
    let exact = "a".repeat(4983);
    assert_eq!(ensure_stegstr_suffix(&exact).unwrap().len(), 5000);
    assert!(ensure_stegstr_suffix(&exact).unwrap().ends_with(" Sent by Stegstr."));
    let over = "a".repeat(4984);
    let note = ensure_stegstr_suffix(&over).unwrap();
    assert_eq!(note.len(), 5000);
    assert!(note.ends_with(" Sent by Stegstr"));
    let long = "a".repeat(9000);
    assert_eq!(ensure_stegstr_suffix(&long), Ok("a".repeat(5000)));
    assert_eq!(suffixed_bytes(&[0xffu8; 7000]), vec![0xffu8; 5000]);
}

#[test]
fn cut_inside_a_character_is_reported() {
    // 4999 bytes of ASCII, then a two-byte character across the limit
    let text = format!("{}\u{e9}{}", "a".repeat(4999), "tail");
    assert_eq!(ensure_stegstr_suffix(&text), Err(StegError::NotUtf8));
    let text = format!("{}\u{e9}{}", "a".repeat(4998), "tail");
    assert_eq!(ensure_stegstr_suffix(&text).unwrap().len(), 5000);
}

#[test]
fn json_strings_match_serde_json() {
    let samples = [
        "",
        "plain",
        "quote \" and backslash \\",
        "line\nfeed, return\r, tab\t, backspace\u{8}, form feed\u{c}",
        "controls \u{0}\u{1}\u{1f}\u{7f}",
        "slash / stays",
        "caf\u{e9} \u{4e2d}\u{6587} \u{1f600}",
        "\u{2028}\u{2029}",
    ];
    for text in samples {
        assert_eq!(json_string(text), serde_json::to_string(text).unwrap());
    }
    assert_eq!(json_string("a\"b"), "\"a\\\"b\"");
    assert_eq!(json_string("\u{1}"), "\"\\u0001\"");
    assert_eq!(json_string("\u{1f}"), "\"\\u001f\"");
}

#[test]
fn preimage_is_canonical() {
    let pubkey = reference_pubkey(&[1u8; 32]);
    let text = preimage_text(&pubkey, 1700000000, "hi Sent by Stegstr.");
    assert_eq!(
        text,
        format!("[0,\"{}\",1700000000,1,[],\"hi Sent by Stegstr.\"]", pubkey)
    );
    assert_eq!(text, reference_preimage(&pubkey, 1700000000, "hi Sent by Stegstr."));
    for (time, content) in [(0u64, ""), (9, "x"), (10, "\"\\"), (u64::MAX, "\n\u{1f600}")] {
        assert_eq!(preimage_text(&pubkey, time, content), reference_preimage(&pubkey, time, content));
    }
}

#[test]
fn event_for_hi() {
    let content = ensure_stegstr_suffix("hi").unwrap();
    assert_eq!(content, "hi Sent by Stegstr.");
    let event = create_kind1_event(&content, &ones(), 1700000000).unwrap();
    let pubkey = reference_pubkey(&[1u8; 32]);
    assert_eq!(event.pubkey, pubkey);
    assert_eq!(event.pubkey.len(), 64);
    assert_eq!(event.created_at, 1700000000);
    assert_eq!(event.kind, 1);
    assert!(event.tags.is_empty());
    assert_eq!(event.content, "hi Sent by Stegstr.");
    let preimage = format!("[0,\"{}\",1700000000,1,[],\"hi Sent by Stegstr.\"]", pubkey);
    assert_eq!(event.id, hex::encode(sha2::Sha256::digest(preimage.as_bytes())));
    assert_eq!(event.id.len(), 64);
    assert_eq!(event.sig.len(), 128);
    assert_eq!(event.id, event.id.to_lowercase());
    assert_eq!(event.sig, event.sig.to_lowercase());
}

#[test]
fn event_signature_verifies() {
    let event = create_kind1_event("signed Sent by Stegstr.", &ones(), 1700000000).unwrap();
    let secp = secp256k1::Secp256k1::new();
    let sig = secp256k1::schnorr::Signature::from_slice(&hex::decode(&event.sig).unwrap()).unwrap();
    let message = secp256k1::Message::from_digest_slice(&hex::decode(&event.id).unwrap()).unwrap();
    let key = secp256k1::XOnlyPublicKey::from_slice(&hex::decode(&event.pubkey).unwrap()).unwrap();
    assert!(secp.verify_schnorr(&sig, &message, &key).is_ok());
}

#[test]
fn event_is_the_same_for_the_same_input() {
    let first = create_kind1_event("same", &ones(), 42).unwrap();
    let second = create_kind1_event("same", &ones(), 42).unwrap();
    assert_eq!(first, second);
    let later = create_kind1_event("same", &ones(), 43).unwrap();
    assert_ne!(first.id, later.id);
    assert_ne!(first.sig, later.sig);
    let other = create_kind1_event("other", &ones(), 42).unwrap();
    assert_ne!(first.id, other.id);
    let key = SecretKey::from_bytes(&[2u8; 32]).unwrap();
    let theirs = create_kind1_event("same", &key, 42).unwrap();
    assert_ne!(first.pubkey, theirs.pubkey);
    assert_ne!(first.id, theirs.id);
}

#[test]
fn event_signature_matches_the_library_it_calls() {
    let event = create_kind1_event("x", &ones(), 1).unwrap();
    let secp = secp256k1::Secp256k1::new();
    let pair = secp256k1::Keypair::from_seckey_slice(&secp, &[1u8; 32]).unwrap();
    let message = secp256k1::Message::from_digest_slice(&hex::decode(&event.id).unwrap()).unwrap();
    let expected = secp.sign_schnorr_no_aux_rand(&message, &pair);
    assert_eq!(event.sig, hex::encode(expected.serialize()));
}

#[test]
fn secret_keys_are_checked() {
    assert!(SecretKey::from_bytes(&[1u8; 32]).is_ok());
    assert_eq!(SecretKey::from_bytes(&[1u8; 32]).unwrap().secret_bytes(), vec![1u8; 32]);
    assert_eq!(SecretKey::from_bytes(&[0u8; 32]).err(), Some(StegError::BadKey));
    assert_eq!(SecretKey::from_bytes(&[1u8; 31]).err(), Some(StegError::BadKey));
    assert_eq!(SecretKey::from_bytes(&[1u8; 33]).err(), Some(StegError::BadKey));
    assert_eq!(SecretKey::from_bytes(&[0xffu8; 32]).err(), Some(StegError::BadKey));
    let order = hex::decode("fffffffffffffffffffffffffffffffebaaedce6af48a03bbfd25e8cd0364141").unwrap();
    assert_eq!(SecretKey::from_bytes(&order).err(), Some(StegError::BadKey));
    let below = hex::decode("fffffffffffffffffffffffffffffffebaaedce6af48a03bbfd25e8cd0364140").unwrap();
    assert!(SecretKey::from_bytes(&below).is_ok());
    let mut one = [0u8; 32];
    one[31] = 1;
    assert!(SecretKey::from_bytes(&one).is_ok());
}

#[test]
fn secret_keys_are_read_from_hex() {
    let text = "01".repeat(32);
    assert_eq!(SecretKey::from_hex(&text).unwrap().secret_bytes(), vec![1u8; 32]);
    let upper = "AB".repeat(32);
    assert_eq!(SecretKey::from_hex(&upper).unwrap().secret_bytes(), vec![0xabu8; 32]);
    assert_eq!(SecretKey::from_hex("").err(), Some(StegError::BadKey));
    assert_eq!(SecretKey::from_hex("0g").err(), Some(StegError::BadKey));
    assert_eq!(SecretKey::from_hex(&"01".repeat(31)).err(), Some(StegError::BadKey));
    assert_eq!(SecretKey::from_hex(&format!("{}0", "01".repeat(32))).err(), Some(StegError::BadKey));
    assert_eq!(SecretKey::from_hex(&"00".repeat(32)).err(), Some(StegError::BadKey));
}

#[test]
fn fresh_keys_are_valid_and_differ() {
    let first = SecretKey::generate();
    let second = SecretKey::generate();
    assert_eq!(first.secret_bytes().len(), 32);
    assert_ne!(first.secret_bytes(), second.secret_bytes());
    assert!(secp256k1::SecretKey::from_slice(&first.secret_bytes()).is_ok());
    assert_eq!(first.x_only_public_key().len(), 32);
    assert_eq!(hex::encode(first.x_only_public_key()), reference_pubkey(&first.secret_bytes()));
}

#[test]
fn bundle_holds_one_note() {
    let bundle = bundle_with_key("hi", &ones(), 1700000000).unwrap();
    assert_eq!(bundle.version, 1);
    assert_eq!(bundle.events.len(), 1);
    let expected = create_kind1_event("hi Sent by Stegstr.", &ones(), 1700000000).unwrap();
    assert_eq!(bundle.events[0], expected);
}

#[test]
fn bundle_json_is_compact_and_parses() {
    let json = build_bundle("hi", Some(&ones()), 1700000000).unwrap();
    assert!(!json.contains(' ') || json.contains("hi Sent by Stegstr."));
    let expected = create_kind1_event("hi Sent by Stegstr.", &ones(), 1700000000).unwrap();
    assert_eq!(
        json,
        format!(
            "{{\"version\":1,\"events\":[{{\"id\":\"{}\",\"pubkey\":\"{}\",\"created_at\":1700000000,\"kind\":1,\"tags\":[],\"content\":\"hi Sent by Stegstr.\",\"sig\":\"{}\"}}]}}",
            expected.id, expected.pubkey, expected.sig
        )
    );
    let value: serde_json::Value = serde_json::from_str(&json).unwrap();
    assert_eq!(value["version"], serde_json::Value::from(1));
    let events = value["events"].as_array().unwrap();
    assert_eq!(events.len(), 1);
    assert_eq!(events[0]["kind"], serde_json::Value::from(1));
    assert_eq!(events[0]["content"], serde_json::Value::from("hi Sent by Stegstr."));
    assert_eq!(events[0]["created_at"], serde_json::Value::from(1700000000u64));
    assert_eq!(events[0]["tags"], serde_json::Value::Array(Vec::new()));
    assert_eq!(events[0]["id"], serde_json::Value::from(expected.id.as_str()));
}

#[test]
fn bundle_without_a_key_uses_a_fresh_one() {
    let first = build_bundle("hi", None, 1).unwrap();
    let second = build_bundle("hi", None, 1).unwrap();
    assert_ne!(first, second);
    let value: serde_json::Value = serde_json::from_str(&first).unwrap();
    let event = &value["events"][0];
    let secp = secp256k1::Secp256k1::new();
    let sig = secp256k1::schnorr::Signature::from_slice(
        &hex::decode(event["sig"].as_str().unwrap()).unwrap(),
    )
    .unwrap();
    let message =
        secp256k1::Message::from_digest_slice(&hex::decode(event["id"].as_str().unwrap()).unwrap())
            .unwrap();
    let key = secp256k1::XOnlyPublicKey::from_slice(
        &hex::decode(event["pubkey"].as_str().unwrap()).unwrap(),
    )
    .unwrap();
    assert!(secp.verify_schnorr(&sig, &message, &key).is_ok());
}

#[test]
fn bundle_reports_a_cut_inside_a_character() {
    let text = format!("{}\u{e9}", "a".repeat(4999));
    assert_eq!(build_bundle(&text, Some(&ones()), 1), Err(StegError::NotUtf8));
    assert_eq!(bundle_with_key(&text, &ones(), 1).err(), Some(StegError::NotUtf8));
}

#[test]
fn bundle_json_writes_tags_and_several_events() {
    let event = Event {
        id: "i".to_string(),
        pubkey: "p".to_string(),
        created_at: 7,
        kind: 1,
        tags: vec![vec!["e".to_string(), "a\"b".to_string()], vec![], vec!["t".to_string()]],
        content: "c".to_string(),
        sig: "s".to_string(),
    };
    let bundle = Bundle { version: 1, events: vec![event.clone(), event] };
    let one = "{\"id\":\"i\",\"pubkey\":\"p\",\"created_at\":7,\"kind\":1,\"tags\":[[\"e\",\"a\\\"b\"],[],[\"t\"]],\"content\":\"c\",\"sig\":\"s\"}";
    assert_eq!(bundle.to_json(), format!("{{\"version\":1,\"events\":[{},{}]}}", one, one));
    let empty = Bundle { version: 1, events: Vec::new() };
    assert_eq!(empty.to_json(), "{\"version\":1,\"events\":[]}");
    let parsed: serde_json::Value = serde_json::from_str(&bundle.to_json()).unwrap();
    assert_eq!(parsed["events"][1]["tags"][0][1], serde_json::Value::from("a\"b"));
}

#[test]
fn signatures_are_verified() {
    let key = ones();
    let pubkey = key.x_only_public_key();
    let digest = [0x5au8; 32];
    let sig = key.sign(&digest);
    assert!(signature_verifies(&pubkey, &digest, &sig));
    let mut other_digest = digest;
    other_digest[0] ^= 1;
    assert!(!signature_verifies(&pubkey, &other_digest, &sig));
    for at in [0usize, 31, 32, 63] {
        let mut broken = sig.clone();
        broken[at] ^= 1;
        assert!(!signature_verifies(&pubkey, &digest, &broken));
    }
    let theirs = SecretKey::from_bytes(&[2u8; 32]).unwrap().x_only_public_key();
    assert!(!signature_verifies(&theirs, &digest, &sig));
}

#[test]
fn malformed_signatures_do_not_verify() {
    let key = ones();
    let pubkey = key.x_only_public_key();
    let digest = [7u8; 32];
    let sig = key.sign(&digest);
    assert!(!signature_verifies(&pubkey[..31], &digest, &sig));
    assert!(!signature_verifies(&pubkey, &digest[..31], &sig));
    assert!(!signature_verifies(&pubkey, &digest, &sig[..63]));
    assert!(!signature_verifies(&[], &[], &[]));
    assert!(!signature_verifies(&[0xffu8; 32], &digest, &sig));
}

#[test]
fn event_is_handed_on_only_when_checked() {
    let event = create_kind1_event("checked", &ones(), 5).unwrap();
    assert_eq!(checked_event(event.clone(), true), Ok(event.clone()));
    assert_eq!(checked_event(event, false), Err(StegError::BadSignature));
}

#[test]
fn event_fields_verify_as_written() {
    let event = create_kind1_event("as written", &ones(), 1700000000).unwrap();
    let pubkey = hex::decode(&event.pubkey).unwrap();
    let id = hex::decode(&event.id).unwrap();
    let sig = hex::decode(&event.sig).unwrap();
    assert!(signature_verifies(&pubkey, &id, &sig));
    let bundle = bundle_with_key("as written", &ones(), 1700000000).unwrap();
    let first = &bundle.events[0];
    assert!(signature_verifies(
        &hex::decode(&first.pubkey).unwrap(),
        &hex::decode(&first.id).unwrap(),
        &hex::decode(&first.sig).unwrap()
    ));
}
