use cardsharp::hide_cloze;

#[test]
fn cloze_masks_between_underscores() {
    assert_eq!(hide_cloze("foo _bar_ baz"), "foo ___ baz");
    assert_eq!(hide_cloze("_ab_ and _cd_"), "__ and __");
    assert_eq!(hide_cloze("no cloze here"), "no cloze here");
    assert_eq!(hide_cloze(""), "");
}

#[test]
fn cloze_with_unpaired_underscore_masks_the_rest() {
    assert_eq!(hide_cloze("open _tail"), "open ____");
}

#[test]
fn cloze_keeps_non_ascii_text() {
    assert_eq!(hide_cloze("gr\u{fc}n _bla\u{fc}_ !"), "gr\u{fc}n ____ !");
}
