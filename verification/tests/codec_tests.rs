use cardsharp::CardId;
use cardsharp::codec::{encode_id, from_base64, id_token, parse_id_token, to_base64};

#[test]
pub fn encoding() {
    assert_eq!(&to_base64(17917863107911671779), "+KkJkFEm3+M=");
    assert_eq!(&to_base64(7719297102838926729), "ayBz0QJqjYk=");
    assert_eq!(&to_base64(18337237242280001155), "/nr0HfQpvoM=");
    assert_eq!(&to_base64(8483997426082376746), "db02tXj37Co=");
    assert_eq!(&to_base64(17647398926863207995), "9Ogn0vVKjjs=");
}

#[test]
pub fn decoding() {
    assert_eq!(from_base64("+KkJkFEm3+M="), Some(17917863107911671779));
    assert_eq!(from_base64("ayBz0QJqjYk="), Some(7719297102838926729));
    assert_eq!(from_base64("/nr0HfQpvoM="), Some(18337237242280001155));
    assert_eq!(from_base64("db02tXj37Co="), Some(8483997426082376746));
    assert_eq!(from_base64("9Ogn0vVKjjs="), Some(17647398926863207995));
    // Invalid characters
    assert_eq!(from_base64("9_gn0vVKjjs="), None);
    assert_eq!(from_base64("9!gn0vVKjjs="), None);
}

#[test]
fn decoding_rejects_wrong_length() {
    assert_eq!(from_base64(""), None);
    assert_eq!(from_base64("AAAA"), None);
    assert_eq!(from_base64("9Ogn0vVKjjs"), None);
    assert_eq!(from_base64("9Ogn0vVKjjs=="), None);
}

#[test]
fn decoding_rejects_missing_padding() {
    // Twelve characters, but the final one is not the padding symbol.
    assert_eq!(from_base64("9Ogn0vVKjjsA"), None);
    // A padding symbol anywhere else is outside the alphabet.
    assert_eq!(from_base64("=Ogn0vVKjjs="), None);
}

#[test]
fn u64_codec_round_trips() {
    for v in [0u64, 1, 63, 64, 255, 48151623, u64::MAX, u64::MAX - 1] {
        let token = to_base64(v);
        assert_eq!(token.len(), 12);
        assert_eq!(from_base64(&token), Some(v), "token {token}");
    }
}

#[test]
fn id_codec_round_trips() {
    let samples = [
        [0u8; 6],
        [255u8; 6],
        [1, 2, 3, 4, 5, 6],
        [0xde, 0xad, 0xbe, 0xef, 0x01, 0x23],
    ];
    for bytes in samples {
        let id = CardId(bytes);
        let token = id_token(&id);
        assert_eq!(token.len(), 8);
        let back = parse_id_token(&token).expect("token must parse");
        assert_eq!(back.0, bytes);
        // The printable form matches the raw token bytes.
        let printable = encode_id(&id);
        assert_eq!(printable.as_bytes(), &token[..]);
    }
}

#[test]
fn id_token_matches_standard_base64() {
    // Six bytes encode as the first eight symbols of ordinary base64.
    let id = CardId([77, 97, 110, 105, 97, 33]);
    assert_eq!(encode_id(&id), "TWFuaWEh");
    assert_eq!(encode_id(&CardId([0; 6])), "AAAAAAAA");
    assert_eq!(encode_id(&CardId([255; 6])), "////////");
}

#[test]
fn id_token_rejects_bad_symbols() {
    assert!(parse_id_token(b"AAAAAAAA").is_some());
    assert!(parse_id_token(b"AAAA_AAA").is_none());
    assert!(parse_id_token(b"AAAA AAA").is_none());
    assert!(parse_id_token(b"AAAAAAA").is_none());
    assert!(parse_id_token(b"AAAAAAAAA").is_none());
    assert!(parse_id_token(b"").is_none());
}

#[test]
fn as_int_packs_bytes() {
    let id = CardId([0x01, 0x02, 0x03, 0x04, 0x05, 0x06]);
    assert_eq!(id.as_int(), 0x0001020304050600);
    assert_eq!(CardId([0; 6]).as_int(), 0);
    assert_eq!(CardId([0xff; 6]).as_int(), 0x00ff_ffff_ffff_ff00);
}
