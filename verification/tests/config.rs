//! The token.

use ymelorix::config::{ensure_header_safe, is_header_safe, Config};

#[test]
fn a_token_is_taken_without_white_space() {
    let config = Config::from_value(Some("  y0_AgAAAA bc\n")).ok().unwrap();
    assert_eq!(config.token.as_str(), "y0_AgAAAA bc");
}

#[test]
fn a_missing_token_is_refused() {
    assert_eq!(
        Config::from_value(None).err(),
        Some("не задана переменная YANDEX_TOKEN".to_owned())
    );
    assert_eq!(
        Config::from_value(Some(" \t")).err(),
        Some("переменная YANDEX_TOKEN пуста: как получить токен — см. README".to_owned())
    );
}

#[test]
fn a_token_that_fits_no_header_is_refused() {
    let reason = Config::from_value(Some("abc\ndef")).err().unwrap();
    assert!(reason.starts_with("переменная YANDEX_TOKEN содержит недопустимый символ '\\n': значение уходит в HTTP-заголовок"));
    assert!(reason.ends_with("скопируйте только само значение, без кавычек и переносов"));
    let reason = ensure_header_safe("токен", "X").err().unwrap();
    assert!(reason.starts_with("переменная X содержит недопустимый символ 'т': "));
    assert_eq!(ensure_header_safe("", "X"), Ok(()));
}

#[test]
fn headers_take_visible_ascii() {
    for code in 0..=0x2FF_u32 {
        if let Some(c) = char::from_u32(code) {
            assert_eq!(is_header_safe(c), c.is_ascii_graphic() || c == ' ');
        }
    }
}
