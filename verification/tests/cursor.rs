use base64::Engine;

use zeroed_books_ledger::cursor::{decode_cursor, encode_cursor};
use zeroed_books_ledger::dates::Date;
use zeroed_books_ledger::store::TransactionCursor;

#[test]
fn cursor_round_trips_through_base64() {
    let cursor = TransactionCursor {
        after_date: Date::new(2023, 4, 15).unwrap(),
        after_created_at: 1681574400,
    };

    let token = encode_cursor(&cursor);
    let decoded = decode_cursor(&token).expect("an encoded cursor should decode");

    assert_eq!(cursor, decoded);
}

#[test]
fn cursor_round_trips_extreme_timestamps() {
    for created in [0i64, -1, 1, i64::MAX, i64::MIN] {
        let cursor = TransactionCursor {
            after_date: Date::new(1, 1, 1).unwrap(),
            after_created_at: created,
        };
        let token = encode_cursor(&cursor);
        assert_eq!(Some(cursor), decode_cursor(&token));
    }
}

#[test]
fn cursor_token_is_base64_not_plain_text() {
    let cursor = TransactionCursor {
        after_date: Date::new(2023, 4, 15).unwrap(),
        after_created_at: 77,
    };

    let token = encode_cursor(&cursor);

    // The token is opaque: it does not carry the plain text, and it holds
    // only url-safe base64 characters.
    assert!(!token.contains('/'));
    assert!(!token.contains("2023-04-15"));
    assert!(token
        .chars()
        .all(|c| c.is_ascii_alphanumeric() || c == '-' || c == '_' || c == '='));
}

#[test]
fn decode_rejects_garbage() {
    assert!(decode_cursor("").is_none());
    assert!(decode_cursor("not base64 at all!").is_none());
    // Valid base64, but not a cursor.
    assert!(decode_cursor("aGVsbG8=").is_none());
}

fn encode_text(text: &str) -> String {
    base64::engine::general_purpose::URL_SAFE.encode(text.as_bytes())
}

#[test]
fn decode_accepts_only_canonical_tokens() {
    // The canonical text decodes.
    let canonical = decode_cursor(&encode_text("2023-04-15/77")).expect("canonical token");
    assert_eq!(Date::new(2023, 4, 15).unwrap(), canonical.after_date);
    assert_eq!(77, canonical.after_created_at);

    // A magnitude with leading zeros, a negative zero, an invalid date and a
    // broken layout are all refused.
    assert!(decode_cursor(&encode_text("2023-04-15/077")).is_none());
    assert!(decode_cursor(&encode_text("2023-04-15/-0")).is_none());
    assert!(decode_cursor(&encode_text("2023-02-30/77")).is_none());
    assert!(decode_cursor(&encode_text("2023-04-15x77")).is_none());
    assert!(decode_cursor(&encode_text("2023-04-15/")).is_none());
}
