//! Terminal decoration on concrete strings.

use nparty::term::{decorate, decorate_range};

const BOLD: &[u8] = b"\x1b[1m";
const UNDERLINE: &[u8] = b"\x1b[4m";
const END: &[u8] = b"\x1b[0m";

fn cat(parts: &[&[u8]]) -> Vec<u8> {
    let mut v = Vec::new();
    for p in parts {
        v.extend_from_slice(p);
    }
    v
}

#[test]
fn decorate_plain() {
    let out = decorate(&b"abc".to_vec(), &BOLD.to_vec());
    assert_eq!(out, cat(&[BOLD, b"abc", END]));
}

#[test]
fn decorate_splits_on_stop() {
    let input = cat(&[b"a", END, b"b"]);
    let out = decorate(&input, &BOLD.to_vec());
    assert_eq!(out, cat(&[BOLD, b"a", END, BOLD, b"b", END]));
}

#[test]
fn decorate_deduplicates_and_reopens() {
    // An existing bold code inside the text is absorbed, and since the
    // last segment had bold formatting open it is re-opened at the end.
    let input = cat(&[b"x", BOLD, b"y"]);
    let out = decorate(&input, &BOLD.to_vec());
    assert_eq!(out, cat(&[BOLD, b"xy", END, BOLD]));
}

#[test]
fn decorate_range_middle() {
    let out = decorate_range(&b"abcdef".to_vec(), 2, 4, &UNDERLINE.to_vec());
    assert_eq!(out, cat(&[b"ab", UNDERLINE, b"cd", END, b"ef"]));
}

#[test]
fn decorate_range_propagates_open_formatting() {
    // Formatting opened before the range continues after it when the
    // range itself holds no stop marker.
    let input = cat(&[BOLD, b"ab"]);
    let out = decorate_range(&input, 5, 6, &UNDERLINE.to_vec());
    assert_eq!(out, cat(&[BOLD, b"a", UNDERLINE, b"b", END, BOLD]));
}
