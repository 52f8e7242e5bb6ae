use cardsharp::codec::parse_id_token;
use cardsharp::locator::{apply_insertions, initialize_card_bodies, load_card_bodies};

fn doc(text: &str) -> Vec<u8> {
    text.as_bytes().to_vec()
}

#[test]
fn scan_finds_identified_cards() {
    let text = "REVIEW:__AAAAAAAA What is base64?\nAn encoding.\nWith 64 symbols.\n\
                REVIEW:__BBBBBBBB Another?\nYes.\n";
    let cards = load_card_bodies(&doc(text));
    assert_eq!(cards.len(), 2);
    assert_eq!(cards[0].id.0, parse_id_token(b"AAAAAAAA").unwrap().0);
    assert_eq!(cards[0].front, b"What is base64?".to_vec());
    assert_eq!(cards[0].back, b"An encoding.\nWith 64 symbols.\n".to_vec());
    assert_eq!(cards[1].id.0, parse_id_token(b"BBBBBBBB").unwrap().0);
    assert_eq!(cards[1].front, b"Another?".to_vec());
    assert_eq!(cards[1].back, b"Yes.\n".to_vec());
}

#[test]
fn scan_stops_body_at_separator() {
    let text = "REVIEW:__AAAAAAAA Q\nbody line\n---\nprose after the card\n";
    let cards = load_card_bodies(&doc(text));
    assert_eq!(cards.len(), 1);
    assert_eq!(cards[0].back, b"body line\n".to_vec());
}

#[test]
fn scan_accepts_marker_at_end_of_file() {
    let text = "some prose\nREVIEW:__AAAAAAAA trailing question";
    let cards = load_card_bodies(&doc(text));
    assert_eq!(cards.len(), 1);
    assert_eq!(cards[0].front, b"trailing question".to_vec());
    assert_eq!(cards[0].back, Vec::<u8>::new());
}

#[test]
fn scan_skips_unidentified_and_malformed_markers() {
    // No token, a too-short token, and a token with a bad symbol: none of
    // these yields a card.
    let text = "REVIEW: plain\nREVIEW:__AAA short\nREVIEW:__AAAA!AAA bad\n";
    let cards = load_card_bodies(&doc(text));
    assert_eq!(cards.len(), 0);
}

#[test]
fn scan_skips_leading_whitespace_before_token_and_title() {
    let text = "REVIEW:  __AAAAAAAA   spaced title\nbody\n";
    let cards = load_card_bodies(&doc(text));
    assert_eq!(cards.len(), 1);
    assert_eq!(cards[0].front, b"spaced title".to_vec());
}

#[test]
fn init_mints_exactly_one_identifier() {
    let mut text = doc("REVIEW: What is spaced repetition?\nA scheduling trick.\n");
    let before = text.clone();
    let ids = initialize_card_bodies(&mut text);
    assert_eq!(ids.len(), 1);

    // The patched document embeds exactly one token: the sigil follows the
    // tag, and the next eight bytes are alphabet symbols.
    let patched = String::from_utf8(text.clone()).unwrap();
    assert_eq!(patched.matches("__").count(), 1);
    assert!(patched.starts_with("REVIEW:__"));
    let token = &text[9..17];
    let id = parse_id_token(token).expect("embedded token must be well formed");
    assert_eq!(id.0, ids[0].0);

    // Everything but the spliced token is untouched.
    let mut expected = b"REVIEW:__".to_vec();
    expected.extend_from_slice(token);
    expected.extend_from_slice(&before[7..]);
    assert_eq!(text, expected);
}

#[test]
fn init_then_scan_round_trips() {
    let mut text = doc("REVIEW: the question\nthe answer\n\nREVIEW:__AAAAAAAA known\nkept\n");
    let before_cards = load_card_bodies(&text);
    assert_eq!(before_cards.len(), 1);

    let ids = initialize_card_bodies(&mut text);
    assert_eq!(ids.len(), 1);

    let cards = load_card_bodies(&text);
    assert_eq!(cards.len(), 2);
    // The new card carries the minted identifier, with title and body as
    // they stood before the patch.
    assert_eq!(cards[0].id.0, ids[0].0);
    assert_eq!(cards[0].front, b"the question".to_vec());
    assert_eq!(cards[0].back, b"the answer\n\n".to_vec());
    // The already-identified card is untouched.
    assert_eq!(cards[1].id.0, before_cards[0].id.0);
    assert_eq!(cards[1].front, b"known".to_vec());
    assert_eq!(cards[1].back, b"kept\n".to_vec());
}

#[test]
fn init_is_idempotent() {
    let mut text = doc("REVIEW: one\nbody\n");
    let ids = initialize_card_bodies(&mut text);
    assert_eq!(ids.len(), 1);
    let after_first = text.clone();
    let ids2 = initialize_card_bodies(&mut text);
    assert_eq!(ids2.len(), 0);
    assert_eq!(text, after_first);
}

#[test]
fn init_leaves_plain_text_alone() {
    let mut text = doc("no cards here\njust prose\n");
    let before = text.clone();
    let ids = initialize_card_bodies(&mut text);
    assert_eq!(ids.len(), 0);
    assert_eq!(text, before);
}

#[test]
fn init_preserves_missing_trailing_newline() {
    let mut text = doc("REVIEW: last line, no newline");
    let ids = initialize_card_bodies(&mut text);
    assert_eq!(ids.len(), 1);
    assert_ne!(*text.last().unwrap(), b'\n');
}

#[test]
fn insertions_shift_later_offsets() {
    let offsets = vec![3usize, 50, 700];
    let insertions = vec![10usize, 10, 10];
    let corrected = apply_insertions(&offsets, &insertions).unwrap();
    assert_eq!(corrected, vec![3, 60, 720]);
}

#[test]
fn insertions_overflow_is_reported() {
    let offsets = vec![0usize, usize::MAX - 5];
    let insertions = vec![10usize, 0];
    assert!(apply_insertions(&offsets, &insertions).is_none());
    let offsets = vec![0usize, usize::MAX];
    let insertions = vec![1usize, 0];
    assert!(apply_insertions(&offsets, &insertions).is_none());
    let offsets = vec![0usize, 0];
    let insertions = vec![0usize, 0];
    assert_eq!(apply_insertions(&offsets, &insertions).unwrap(), vec![0, 0]);
}
