//! Ids and kinds.

use crdtsync_core::clientid::ClientId;
use crdtsync_core::elementid::{ElementId, ElementKind};
use crdtsync_core::host::Host;

#[test]
fn every_key_derived_kind_is_a_candidate() {
    // The candidate list a migration walks and the predicate that classifies a
    // kind are two statements of one fact; a kind in either and not the other
    // records a create no resolution ever reaches, or the reverse.
    for tag in 0..=u8::MAX {
        let Some(kind) = ElementKind::from_tag(tag) else {
            continue;
        };
        assert_eq!(
            kind.is_key_derived_container(),
            ElementKind::key_derived_containers().contains(&kind),
            "{kind:?} is classified one way and listed the other"
        );
    }
}

#[test]
fn kind_tags_round_trip() {
    for tag in 0..=u8::MAX {
        match ElementKind::from_tag(tag) {
            Some(kind) => assert_eq!(kind.tag(), tag),
            None => assert!(tag > 7),
        }
    }
    assert_eq!(ElementKind::from_tag(3), Some(ElementKind::LwwMap));
    assert!(ElementKind::LwwMap.is_container());
    assert!(!ElementKind::Scalar.is_container());
}

#[test]
fn an_id_keeps_its_bytes() {
    let mut raw = [0u8; 16];
    for (i, b) in raw.iter_mut().enumerate() {
        *b = i as u8 + 1;
    }
    assert_eq!(ElementId::from_bytes(raw).as_bytes(), raw);
    assert_eq!(ClientId::from_bytes(raw).as_bytes(), raw);
}

#[test]
fn a_derived_id_is_the_named_uuid() {
    let parent = ElementId::from_bytes([7; 16]);
    let id = ElementId::derive(parent, b"title", ElementKind::Text);
    let name = [b"title".as_slice(), &[ElementKind::Text.tag()]].concat();
    let want = uuid::Uuid::new_v5(&uuid::Uuid::from_bytes([7; 16]), &name);
    assert_eq!(id.as_bytes(), *want.as_bytes());
    assert_ne!(id, parent);
    assert_ne!(id, ElementId::derive(parent, b"title", ElementKind::List));
    assert_ne!(id, ElementId::derive(parent, b"other", ElementKind::Text));
}

struct FixedHost {
    millis: u64,
    byte: u8,
}

impl Host for FixedHost {
    fn entropy(&self, buf: &mut [u8]) {
        buf.fill(self.byte);
    }

    fn now_unix_millis(&self) -> u64 {
        self.millis
    }
}

#[test]
fn a_generated_client_is_a_time_ordered_uuid() {
    let early = ClientId::generate(&FixedHost { millis: 1_700_000_000_000, byte: 9 });
    let late = ClientId::generate(&FixedHost { millis: 1_700_000_000_001, byte: 0 });
    let raw = early.as_bytes();
    assert_eq!(raw[6] >> 4, 7);
    assert_eq!(&raw[..6], &1_700_000_000_000u64.to_be_bytes()[2..]);
    assert!(early.as_bytes() < late.as_bytes());
}

#[test]
fn channel_zero_is_the_client_itself() {
    let client = ClientId::from_bytes([3; 16]);
    assert_eq!(client.for_channel(0), client);
    assert_ne!(client.for_channel(1), client);
    assert_ne!(client.for_channel(1), client.for_channel(2));
}
