//! Digests of numbers and of bytes, and the keys that are made of them.
use gitcomet_view::conflict::blocks::ResolvedOutputBlockMap;
use gitcomet_view::conflict::highlights::ResolvedOutputUnresolvedSpans;
use gitcomet_view::conflict::model::ConflictSegment;
use gitcomet_view::conflict::output::block_map_fingerprint;
use gitcomet_view::conflict::output::resolution_fingerprint;
use gitcomet_view::conflict::output::resolved_output_heuristic_provider_binding_key;
use gitcomet_view::conflict::output::resolved_output_live_provider_binding_key;
use gitcomet_view::conflict::output::ResolvedOutputKey;
use gitcomet_view::digest::fx_hash_bytes;
use gitcomet_view::digest::fx_hash_words;
use gitcomet_view::disk::disk_content_hash;
use gitcomet_view::outline::ResolvedOutputSourceRevision;
use gitcomet_view::outline::TextSnapshot;

fn added_64(state: u64, word: u64) -> u64 {
    state.wrapping_add(word).wrapping_mul(0xf1357aea2e62a9c5)
}

fn added_32(state: u32, word: u32) -> u32 {
    state.wrapping_add(word).wrapping_mul(0x93d765dd)
}

fn expected(words: &[u64]) -> u64 {
    if usize::BITS == 64 {
        words.iter().fold(0, |state, word| added_64(state, *word)).rotate_left(26)
    } else {
        let state = words.iter().fold(0, |state, word| {
            added_32(added_32(state, *word as u32), (*word >> 32) as u32)
        });
        u64::from(state.rotate_left(15))
    }
}

#[test]
fn numbers_are_digested_one_by_one() {
    assert_eq!(fx_hash_words(&[]), 0);
    let lists: [&[u64]; 5] = [&[5], &[1, 2], &[2, 1], &[0, 7, 9], &[u64::MAX, 1 << 40, 3]];
    for words in lists {
        assert_eq!(fx_hash_words(words), expected(words));
    }
    if usize::BITS == 64 {
        assert_eq!(fx_hash_words(&[5]), 0x4b9fb54366d82d9a);
        assert_eq!(fx_hash_words(&[1, 2]), 0x650bc148fda4ac4);
        assert_eq!(fx_hash_words(&[2, 1]), 0x1274d833dc6613c5);
        assert_eq!(fx_hash_words(&[0, 7, 9]), 0xe0956f4c701fddc1);
    }
}

#[test]
fn one_other_number_gives_another_digest() {
    let words = [3, 1, 4, 1, 5];
    for at in 0..words.len() {
        for other in [0, 2, 9, u64::from(u32::MAX)] {
            let mut changed = words;
            changed[at] = other;
            assert_ne!(fx_hash_words(&words), fx_hash_words(&changed));
        }
    }
}

#[test]
fn bytes_have_one_digest_in_a_program() {
    for bytes in [&b""[..], b"a", b"ab", b"a longer text that takes more than sixteen bytes"] {
        assert_eq!(fx_hash_bytes(bytes), fx_hash_bytes(bytes));
        assert_eq!(disk_content_hash(bytes), fx_hash_bytes(bytes));
    }
    assert_ne!(disk_content_hash(b"ab"), disk_content_hash(b"ba"));
}

fn spans() -> ResolvedOutputUnresolvedSpans {
    ResolvedOutputUnresolvedSpans { all: vec![1..2, 5..6], active: vec![] }
}

#[test]
fn keys_of_highlights_stay_while_nothing_changes() {
    let live = resolved_output_live_provider_binding_key(1, 2, &spans());
    assert_eq!(live, expected(&[0, 1, 2, 2, 1, 2, 5, 6, 0]));
    if usize::BITS == 64 {
        assert_eq!(live, 0x38abeaf7acde47e6);
    }
    assert_eq!(live, resolved_output_live_provider_binding_key(1, 2, &spans()));
    assert_ne!(live, resolved_output_live_provider_binding_key(2, 2, &spans()));
    assert_ne!(live, resolved_output_live_provider_binding_key(1, 3, &spans()));
    let revision = ResolvedOutputSourceRevision { model_id: 7, revision: 8 };
    let heuristic = resolved_output_heuristic_provider_binding_key(revision, 2, &spans());
    assert_eq!(heuristic, expected(&[1, 7, 8, 2, 2, 1, 2, 5, 6, 0]));
    let live = resolved_output_live_provider_binding_key(u64::MAX, 2, &spans());
    assert_ne!(live, heuristic);
}

#[test]
fn the_key_of_a_result_holds_its_revision_and_both_digests() {
    let snapshot = TextSnapshot { model_id: 3, revision: 4, text: "text".to_string() };
    let segments = [ConflictSegment::Text("text".to_string())];
    let map = ResolvedOutputBlockMap { ranges: vec![0..2, 4..9] };
    let key = ResolvedOutputKey::new(&snapshot, &segments, &map);
    assert_eq!(key.revision.model_id, 3);
    assert_eq!(key.revision.revision, 4);
    assert_eq!(key.resolution, resolution_fingerprint(&segments));
    assert_eq!(key.resolution, expected(&[0]));
    assert_eq!(key.block_map, block_map_fingerprint(&map));
    assert_eq!(key.block_map, expected(&[2, 0, 2, 4, 9]));
}
