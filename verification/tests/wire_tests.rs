use event_chain::chain::{Chain, Event};
use event_chain::wire::{chain_typecheck, decode_chain, encode_chain, BoundaryType, WireError};

fn sample_chain() -> Chain {
    let mut c = Chain::new();
    let _ = c.add(Event::new("first".to_string(), vec![1, 2, 3]));
    let _ = c.add(Event::new("second".to_string(), vec![]));
    let _ = c.add(Event::new("third".to_string(), vec![255, 0]));
    c
}

fn assert_chains_equal(a: &Chain, b: &Chain) {
    assert_eq!(a.len(), b.len());
    let mut i = 0;
    while i < a.len() {
        let ma = a.entry_at(i);
        let mb = b.entry_at(i);
        assert_eq!(ma.hash(), mb.hash());
        assert_eq!(ma.event().type_(), mb.event().type_());
        assert_eq!(ma.event().parent(), mb.event().parent());
        assert_eq!(ma.event().data(), mb.event().data());
        i += 1;
    }
}

#[test]
fn three_event_chain_round_trips() {
    let c = sample_chain();
    let text = encode_chain(&c);
    let back = decode_chain(&text).expect("canonical text decodes");
    assert_chains_equal(&c, &back);
}

#[test]
fn empty_chain_round_trips() {
    let c = Chain::new();
    let text = encode_chain(&c);
    assert_eq!(text, "{\"events\":[]}");
    let back = decode_chain(&text).expect("empty document decodes");
    assert_eq!(back.len(), 0);
}

#[test]
fn awkward_type_tags_round_trip() {
    let mut c = Chain::new();
    let _ = c.add(Event::new("quote\"back\\slash".to_string(), vec![1]));
    let _ = c.add(Event::new("line\nbreak\ttab".to_string(), vec![2]));
    let _ = c.add(Event::new("ctrl\u{1}\u{1f}unicode é λ".to_string(), vec![3]));
    let text = encode_chain(&c);
    let back = decode_chain(&text).expect("escaped text decodes");
    assert_chains_equal(&c, &back);
}

#[test]
fn encoding_matches_the_serde_json_shape() {
    let c = sample_chain();
    let text = encode_chain(&c);
    let v: serde_json::Value = serde_json::from_str(&text).expect("wire text is valid JSON");
    let events = v["events"].as_array().expect("events array");
    assert_eq!(events.len(), 3);
    let first = &events[0];
    assert_eq!(first["hash"].as_u64(), Some(c.entry_at(0).hash()));
    assert_eq!(first["event"]["type_"].as_str(), Some("first"));
    assert!(first["event"]["parent"].is_null());
    let data = first["event"]["data"].as_array().expect("data array");
    let bytes: Vec<u8> = data.iter().map(|d| d.as_u64().unwrap() as u8).collect();
    assert_eq!(bytes, vec![1, 2, 3]);
    let second = &events[1];
    assert_eq!(
        second["event"]["parent"].as_u64(),
        Some(c.entry_at(0).hash())
    );
}

#[test]
fn handcrafted_canonical_text_decodes() {
    let text = "{\"events\":[{\"hash\":5,\"event\":{\"type_\":\"t\",\"parent\":null,\"data\":[1,2]}},{\"hash\":6,\"event\":{\"type_\":\"u\",\"parent\":5,\"data\":[]}}]}";
    let c = decode_chain(text).expect("decodes");
    assert_eq!(c.len(), 2);
    assert_eq!(c.entry_at(0).hash(), 5);
    assert_eq!(c.entry_at(0).event().type_(), "t");
    assert_eq!(c.entry_at(0).event().parent(), None);
    assert_eq!(c.entry_at(0).event().data(), &vec![1u8, 2u8]);
    assert_eq!(c.entry_at(1).hash(), 6);
    assert_eq!(c.entry_at(1).event().parent(), Some(5));
    assert_eq!(c.entry_at(1).event().data(), &Vec::<u8>::new());
}

#[test]
fn escaped_tag_decodes_from_handcrafted_text() {
    let text = "{\"events\":[{\"hash\":1,\"event\":{\"type_\":\"a\\\"b\\\\c\\nd\\u0001\",\"parent\":null,\"data\":[]}}]}";
    let c = decode_chain(text).expect("decodes");
    assert_eq!(c.entry_at(0).event().type_(), "a\"b\\c\nd\u{1}");
}

#[test]
fn malformed_texts_are_rejected() {
    for bad in [
        "",
        "{",
        "{\"events\":}",
        "{\"events\":[",
        "{\"events\":[]",
        "{\"events\":[]} ",
        " {\"events\":[]}",
        "{\"events\":[{\"hash\":,\"event\":{\"type_\":\"t\",\"parent\":null,\"data\":[]}}]}",
        "{\"events\":[{\"hash\":1,\"event\":{\"type_\":\"t\",\"parent\":null,\"data\":[256]}}]}",
        "{\"events\":[{\"hash\":1,\"event\":{\"type_\":\"t\",\"parent\":null,\"data\":[1,]}}]}",
        "{\"events\":[{\"hash\":99999999999999999999,\"event\":{\"type_\":\"t\",\"parent\":null,\"data\":[]}}]}",
        "{\"events\":[{\"hash\":1,\"event\":{\"type_\":\"t\",\"parent\":null,\"data\":[]}}]}{",
        "{\"other\":[]}",
    ] {
        match decode_chain(bad) {
            Err(e) => assert_eq!(e, WireError::Malformed),
            Ok(_) => panic!("input was accepted: {}", bad),
        }
    }
}

#[test]
fn boundary_accepts_only_the_string_type() {
    assert_eq!(chain_typecheck(&BoundaryType::PrimString), Ok(()));
    assert_eq!(
        chain_typecheck(&BoundaryType::PrimBool),
        Err(WireError::TypeMismatch)
    );
    assert_eq!(
        chain_typecheck(&BoundaryType::Other),
        Err(WireError::TypeMismatch)
    );
}

