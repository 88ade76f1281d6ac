use layered_vfs::pathkey::PathKey;
use layered_vfs::error::VfsError;

#[test]
fn canonical_keys_ignore_case_and_separator() {
    let a = PathKey::canonicalize("Data/Sound.WAV");
    let b = PathKey::canonicalize("data\\sound.wav");
    assert!(a.equals(&b));
}

#[test]
fn canonical_keys_ignore_unicode_normalization_form() {
    // "é" written precomposed (U+00E9) and decomposed (e + U+0301).
    let composed = PathKey::canonicalize("caf\u{00e9}/a.txt");
    let decomposed = PathKey::canonicalize("cafe\u{0301}/a.txt");
    assert!(composed.equals(&decomposed));
    // An uppercase decomposed É folds and composes to the same key.
    let upper = PathKey::canonicalize("CAFE\u{0301}/A.TXT");
    assert!(composed.equals(&upper));
}

#[test]
fn canonicalization_is_idempotent() {
    let first = PathKey::canonicalize("MoDs//Weapons\\Rifle.PNG");
    let again = PathKey::canonicalize(&first.to_path_string());
    assert!(first.equals(&again));
}

#[test]
fn case_permutations_share_one_key() {
    let a = PathKey::canonicalize("mod/textures/wall.png");
    let b = PathKey::canonicalize("MOD/Textures/WALL.png");
    let c = PathKey::canonicalize("mOd/tExTuReS/wAlL.pNg");
    assert!(a.equals(&b));
    assert!(a.equals(&c));
}

#[test]
fn rendering_gives_the_lowercase_form() {
    let k = PathKey::canonicalize("Data//Sound.WAV");
    assert_eq!(k.to_path_string(), "data/sound.wav");
    assert_eq!(k.segment_count(), 2);
}

#[test]
fn empty_and_separator_only_paths_have_no_segments() {
    assert_eq!(PathKey::canonicalize("").segment_count(), 0);
    assert_eq!(PathKey::canonicalize("///").segment_count(), 0);
    let root = PathKey::canonicalize("/");
    assert!(root.equals(&PathKey::canonicalize("\\")));
}

#[test]
fn bad_bytes_are_rejected_with_invalid_encoding() {
    let bad = vec![0xffu8, 0xfe, 0x2f, 0x61];
    match PathKey::canonicalize_bytes(&bad) {
        Err(e) => assert_eq!(e, VfsError::InvalidEncoding),
        Ok(_) => panic!("malformed bytes must be rejected"),
    }
    let good = b"Data/Sound.WAV".to_vec();
    let k = PathKey::canonicalize_bytes(&good).expect("ascii bytes are valid text");
    assert!(k.equals(&PathKey::canonicalize("data/sound.wav")));
}

#[test]
fn distinct_names_stay_distinct() {
    let a = PathKey::canonicalize("data/a.txt");
    let b = PathKey::canonicalize("data/b.txt");
    assert!(!a.equals(&b));
    assert!(!a.is_proper_prefix_of(&b));
    let dir = PathKey::canonicalize("data");
    assert!(dir.is_proper_prefix_of(&a));
}

#[test]
fn error_descriptions_are_distinct() {
    assert_ne!(VfsError::NotFound.describe(), VfsError::Io.describe());
    assert!(!VfsError::UnexpectedEof.describe().is_empty());
}
