//! What a surface knows of its file.
use gitcomet_view::disk::DiskIdentity;
use gitcomet_view::disk::DiskStamp;
use gitcomet_view::disk::KnownBytes;
use gitcomet_view::disk::MAX_KNOWN_BYTES;

fn stamp(len: u64) -> DiskStamp {
    DiskStamp { len, modified: None, change: (0, 0, 0), trusted: false }
}

fn pending(text: &str) -> KnownBytes {
    KnownBytes::Pending(text.to_string())
}

#[test]
fn confirming_a_write_forgets_what_it_replaced_but_keeps_later_writes() {
    let mut identity = DiskIdentity::loaded(stamp(1), Some(10));
    identity.note_pending_write("two".to_string());
    identity.note_pending_write("three".to_string());
    assert_eq!(identity.known, vec![KnownBytes::Seen(10), pending("two"), pending("three")]);

    identity.confirm(stamp(1), Some((0, 10)));
    assert_eq!(identity.known.len(), 3);

    identity.confirm(stamp(2), Some((1, 20)));
    assert_eq!(identity.known, vec![KnownBytes::Seen(20), pending("three")]);

    identity.confirm(stamp(3), Some((1, 30)));
    assert_eq!(identity.known, vec![KnownBytes::Seen(30)]);
}

#[test]
fn a_pending_write_matches_its_own_bytes_off_the_ui_thread() {
    let known = pending("fn main() {}\n");
    assert!(known.matches(b"fn main() {}\n", 0));
    assert!(!known.matches(b"fn main() { }\n", 0));
    assert!(KnownBytes::Seen(7).matches(b"anything", 7));
}

#[test]
fn adopting_what_the_notice_saw_keeps_saves_still_on_their_way() {
    let mut identity = DiskIdentity::loaded(stamp(1), Some(10));
    identity.note_pending_write("mine".to_string());
    identity.adopt(DiskIdentity::loaded(stamp(2), Some(99)));
    assert_eq!(identity.known, vec![KnownBytes::Seen(99), pending("mine")]);
}

#[test]
fn pending_writes_are_capped() {
    let mut identity = DiskIdentity::loaded(stamp(1), Some(0));
    for ix in 1..=20 {
        identity.note_pending_write(ix.to_string());
    }
    assert_eq!(identity.known.len(), MAX_KNOWN_BYTES);
    assert_eq!(identity.known.last(), Some(&pending("20")));
}

#[test]
fn adopting_over_many_saves_keeps_the_newest() {
    let mut identity = DiskIdentity::loaded(stamp(1), Some(10));
    for ix in 1..=8 {
        identity.note_pending_write(ix.to_string());
    }
    assert_eq!(identity.known.first(), Some(&pending("1")));
    identity.adopt(DiskIdentity::loaded(stamp(2), Some(99)));
    let mut expected = vec![KnownBytes::Seen(99)];
    expected.extend((2..=8).map(|ix| pending(&ix.to_string())));
    assert_eq!(identity.known, expected);
}

#[test]
fn adopting_a_missing_file_keeps_every_save() {
    let mut identity = DiskIdentity::loaded(stamp(1), Some(10));
    for ix in 1..=8 {
        identity.note_pending_write(ix.to_string());
    }
    identity.adopt(DiskIdentity::gone());
    let expected = (1..=8).map(|ix| pending(&ix.to_string())).collect::<Vec<_>>();
    assert_eq!(identity.known, expected);
    assert!(identity.missing);
}
