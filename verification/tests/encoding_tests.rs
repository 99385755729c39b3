use encoding_rs::Encoding;
use text_decoder::{AsciiCompatibleEncoding, SharedEncoding};

/// This serves as a map from integer to [`Encoding`], which allows more efficient
/// sets/gets of the [`SharedEncoding`].
static ALL_ENCODINGS: &[&Encoding] = &[
    &encoding_rs::BIG5_INIT,
    &encoding_rs::EUC_JP_INIT,
    &encoding_rs::EUC_KR_INIT,
    &encoding_rs::GB18030_INIT,
    &encoding_rs::GBK_INIT,
    &encoding_rs::IBM866_INIT,
    &encoding_rs::ISO_2022_JP_INIT,
    &encoding_rs::ISO_8859_2_INIT,
    &encoding_rs::ISO_8859_3_INIT,
    &encoding_rs::ISO_8859_4_INIT,
    &encoding_rs::ISO_8859_5_INIT,
    &encoding_rs::ISO_8859_6_INIT,
    &encoding_rs::ISO_8859_7_INIT,
    &encoding_rs::ISO_8859_8_I_INIT,
    &encoding_rs::ISO_8859_8_INIT,
    &encoding_rs::ISO_8859_10_INIT,
    &encoding_rs::ISO_8859_13_INIT,
    &encoding_rs::ISO_8859_14_INIT,
    &encoding_rs::ISO_8859_15_INIT,
    &encoding_rs::ISO_8859_16_INIT,
    &encoding_rs::KOI8_R_INIT,
    &encoding_rs::KOI8_U_INIT,
    &encoding_rs::MACINTOSH_INIT,
    &encoding_rs::REPLACEMENT_INIT,
    &encoding_rs::SHIFT_JIS_INIT,
    &encoding_rs::UTF_8_INIT,
    &encoding_rs::UTF_16BE_INIT,
    &encoding_rs::UTF_16LE_INIT,
    &encoding_rs::WINDOWS_874_INIT,
    &encoding_rs::WINDOWS_1250_INIT,
    &encoding_rs::WINDOWS_1251_INIT,
    &encoding_rs::WINDOWS_1252_INIT,
    &encoding_rs::WINDOWS_1253_INIT,
    &encoding_rs::WINDOWS_1254_INIT,
    &encoding_rs::WINDOWS_1255_INIT,
    &encoding_rs::WINDOWS_1256_INIT,
    &encoding_rs::WINDOWS_1257_INIT,
    &encoding_rs::WINDOWS_1258_INIT,
    &encoding_rs::X_MAC_CYRILLIC_INIT,
    &encoding_rs::X_USER_DEFINED_INIT,
];

#[test]
fn test_encoding_round_trip() {
    let shared_encoding = SharedEncoding::new(AsciiCompatibleEncoding::utf_8());

    for &encoding in ALL_ENCODINGS {
        if let Some(ascii_compat_encoding) = AsciiCompatibleEncoding::new(encoding) {
            shared_encoding.set(ascii_compat_encoding);
            assert_eq!(shared_encoding.get().raw, encoding);
        }
    }
}

#[test]
fn ascii_incompatible_encodings_are_refused() {
    assert!(AsciiCompatibleEncoding::new(encoding_rs::UTF_16BE).is_none());
    assert!(AsciiCompatibleEncoding::new(encoding_rs::UTF_16LE).is_none());
    assert!(AsciiCompatibleEncoding::new(encoding_rs::ISO_2022_JP).is_none());
    assert!(AsciiCompatibleEncoding::new(encoding_rs::REPLACEMENT).is_none());
    assert!(AsciiCompatibleEncoding::new(encoding_rs::UTF_8).is_some());
    assert!(AsciiCompatibleEncoding::new(encoding_rs::WINDOWS_1252).is_some());
}

#[test]
fn utf_8_constructor_matches_registry_member() {
    let utf8 = AsciiCompatibleEncoding::utf_8();
    assert_eq!(utf8.raw, encoding_rs::UTF_8);
    assert!(utf8.utf8);
}
