use fink_vscode::bytes::{count_newlines, find_line_end, find_line_start, slice};
use fink_vscode::json::{add_member, add_number, add_range, add_text, write_json, Value};
use fink_vscode::lexer::separators;
use fink_vscode::sort::sort_by_place;
use fink_vscode::text::{
    chars_of, escape, len_utf16, len_utf8, push_decimal, same_text, skip_white, skip_white_back,
    string_of, white_space,
};
use fink_vscode::tokens::RawToken;

fn decimal(n: u32) -> String {
    let mut out = String::new();
    push_decimal(&mut out, n);
    out
}

#[test]
fn decimal_numbers_are_written_without_leading_zeros() {
    assert_eq!(decimal(0), "0");
    assert_eq!(decimal(7), "7");
    assert_eq!(decimal(10), "10");
    assert_eq!(decimal(4096), "4096");
    assert_eq!(decimal(u32::MAX), "4294967295");
    for n in 0..2000u32 {
        assert_eq!(decimal(n), format!("{}", n));
    }
}

#[test]
fn decimal_numbers_are_appended() {
    let mut out = "x=".to_string();
    push_decimal(&mut out, 42);
    assert_eq!(out, "x=42");
}

#[test]
fn escape_handles_backslashes_and_quotes() {
    assert_eq!(escape(""), "");
    assert_eq!(escape("plain"), "plain");
    assert_eq!(escape("say \"hi\""), "say \\\"hi\\\"");
    assert_eq!(escape("a\\b"), "a\\\\b");
    assert_eq!(escape("\\\""), "\\\\\\\"");
    for s in ["", "a\\\\\"b", "\"\"", "ƒ\\ink", "\\"] {
        assert_eq!(escape(s), s.replace('\\', "\\\\").replace('"', "\\\""));
    }
}

#[test]
fn escape_writes_control_characters_by_number() {
    assert_eq!(escape("line\nend"), "line\\u000aend");
    assert_eq!(escape("\u{0}\t\r\u{1f} \u{7f}"), "\\u0000\\u0009\\u000d\\u001f \u{7f}");
    for c in (0..0x20u8).map(char::from) {
        assert_eq!(escape(&c.to_string()), format!("\\u{:04x}", c as u32));
    }
}

#[test]
fn json_arrays_are_comma_separated() {
    assert_eq!(write_json(&Value::List(vec![])), "[]");
    assert_eq!(write_json(&Value::List(vec![Value::Number(1)])), "[1]");
    assert_eq!(
        write_json(&Value::List(vec![
            Value::Object(vec![]),
            Value::Text("a\"b".to_string()),
            Value::List(vec![Value::Number(3)]),
        ])),
        "[{},\"a\\\"b\",[3]]"
    );
}

#[test]
fn json_objects_keep_the_order_of_their_members() {
    let mut members = Vec::new();
    add_text(&mut members, "name", "x\ny");
    add_range(&mut members, 1, 2, 3, 44);
    add_number(&mut members, "n", 0);
    add_member(&mut members, "list", Value::List(vec![]));
    assert_eq!(
        write_json(&Value::Object(members)),
        "{\"name\":\"x\\u000ay\",\"line\":1,\"col\":2,\"endLine\":3,\"endCol\":44,\"n\":0,\"list\":[]}"
    );
}

#[test]
fn same_text_compares_characters() {
    assert!(same_text("", ""));
    assert!(same_text("ƒink", "\u{192}ink"));
    assert!(!same_text("fink", "ƒink"));
    assert!(!same_text("ink", "inks"));
    assert!(!same_text("abc", "abd"));
}

#[test]
fn chars_and_strings_convert() {
    let v = chars_of("aƒ😀");
    assert_eq!(v, vec!['a', 'ƒ', '😀']);
    assert_eq!(string_of(&v, 0, 3), "aƒ😀");
    assert_eq!(string_of(&v, 1, 2), "ƒ");
    assert_eq!(string_of(&v, 2, 2), "");
}

#[test]
fn character_widths_agree_with_the_encodings() {
    for c in (0..=0x10FFFFu32).filter_map(char::from_u32) {
        assert_eq!(len_utf8(c), c.len_utf8());
        assert_eq!(len_utf16(c) as usize, c.len_utf16());
    }
}

#[test]
fn white_space_is_the_unicode_property() {
    for c in (0..=0x10FFFFu32).filter_map(char::from_u32) {
        assert_eq!(white_space(c), c.is_whitespace());
    }
}

#[test]
fn white_space_is_skipped_at_both_ends() {
    let v = chars_of(" \u{3000}\tab c\u{A0}\r");
    let from = skip_white(&v, 0, v.len());
    let to = skip_white_back(&v, from, v.len());
    assert_eq!(string_of(&v, from, to), "ab c");
    let blank = chars_of("  \n");
    assert_eq!(skip_white(&blank, 0, 3), 3);
    assert_eq!(skip_white_back(&blank, 0, 3), 0);
}

#[test]
fn lines_are_found_in_bytes() {
    let s = b"ab\ncd\n\nef";
    assert_eq!(count_newlines(s, 0), 0);
    assert_eq!(count_newlines(s, 3), 1);
    assert_eq!(count_newlines(s, s.len()), 3);
    assert_eq!(find_line_start(s, 0), 0);
    assert_eq!(find_line_start(s, 2), 0);
    assert_eq!(find_line_start(s, 3), 3);
    assert_eq!(find_line_start(s, 9), 7);
    assert_eq!(find_line_end(s, 0), 2);
    assert_eq!(find_line_end(s, 2), 2);
    assert_eq!(find_line_end(s, 7), 9);
    assert_eq!(find_line_end(s, 20), 20);
}

#[test]
fn slices_are_cut_at_byte_offsets() {
    let s = "aƒink";
    assert_eq!(slice(s, 0, 6), "aƒink");
    assert_eq!(slice(s, 1, 3), "ƒ");
    assert_eq!(slice(s, 3, 6), "ink");
    assert_eq!(slice(s, 6, 6), "");
}

#[test]
fn the_lexer_separates_operators() {
    let list = separators();
    assert_eq!(list.len(), 29);
    assert_eq!(list[0], "+");
    assert_eq!(list[8], "/%");
    assert_eq!(list[15], "><");
    assert_eq!(list[22], "<<<");
    assert_eq!(list[28], "...");
}

fn at(line: u32, col: u32, tag: u32) -> RawToken {
    RawToken { line, col, length: 1, token_type: tag, modifiers: 0 }
}

#[test]
fn sorting_is_by_place_and_stable() {
    let mut v = vec![at(2, 0, 1), at(0, 5, 2), at(0, 1, 3), at(2, 0, 4), at(0, 5, 5), at(1, 9, 6)];
    sort_by_place(&mut v);
    let tags: Vec<u32> = v.iter().map(|t| t.token_type).collect();
    assert_eq!(tags, vec![3, 2, 5, 6, 1, 4]);
}

#[test]
fn sorting_agrees_with_a_stable_sort() {
    let mut seed: u64 = 7;
    let mut next = || {
        seed = seed.wrapping_mul(6364136223846793005).wrapping_add(1442695040888963407);
        (seed >> 40) as u32
    };
    for n in 0..60u32 {
        let mut v: Vec<RawToken> = (0..n).map(|i| at(next() % 4, next() % 4, i)).collect();
        let mut wanted = v.clone();
        wanted.sort_by_key(|t| (t.line, t.col));
        sort_by_place(&mut v);
        assert_eq!(v, wanted);
    }
}
