use ept::backend::Backend;
use ept::chapter::{ChapterBuilder, Content};
use ept::position::Len;
use ept::style::Style;

fn session(paragraphs: &[&str]) -> Backend {
    let mut b = ChapterBuilder::new();
    for p in paragraphs {
        b.add(Content::Text(Style::empty(), p));
        b.add(Content::Linebreak);
    }
    b.build()
}

fn type_str(b: &mut Backend, s: &str) {
    for c in s.chars() {
        b.push(c);
    }
}

fn check_invariants(b: &Backend) {
    assert_eq!(b.typed().len(), b.cursor().chars);
    let errors = b.errors();
    for w in errors.windows(2) {
        assert!(w[0].bytes < w[1].bytes);
    }
    for e in errors {
        assert!(e.bytes < b.cursor().bytes);
    }
}

#[test]
fn push_matching_advances_without_error() {
    let mut b = session(&["ab"]);
    type_str(&mut b, "ab");
    assert_eq!(b.cursor(), Len::new(2, 2));
    assert!(b.errors().is_empty());
    assert_eq!(b.last_cursor_position(), Len::new(1, 1));
    check_invariants(&b);
}

#[test]
fn push_mismatch_records_pre_push_cursor() {
    let mut b = session(&["abc"]);
    b.push('a');
    b.push('x');
    assert_eq!(b.errors(), &[Len::new(1, 1)]);
    assert_eq!(b.cursor(), Len::new(2, 2));
    check_invariants(&b);
}

#[test]
fn push_a_on_b_records_one_error() {
    let mut b = session(&["b"]);
    b.push('a');
    assert_eq!(b.errors(), &[Len::new(0, 0)]);
    assert_eq!(b.errors().len(), 1);
}

#[test]
fn straight_apostrophe_matches_curly() {
    let mut b = session(&["\u{2019}s"]);
    b.push('\'');
    assert!(b.errors().is_empty());
    assert_eq!(b.cursor(), Len::new(3, 1));
}

#[test]
fn straight_quote_matches_both_curly_quotes() {
    let mut b = session(&["\u{201C}x\u{201D}"]);
    type_str(&mut b, "\"x\"");
    assert!(b.errors().is_empty());
    assert_eq!(b.cursor(), Len::new(7, 3));
}

#[test]
fn space_matches_no_break_space() {
    let mut b = session(&["a\u{A0}b"]);
    type_str(&mut b, "a b");
    assert!(b.errors().is_empty());
    assert_eq!(b.cursor(), Len::new(4, 3));
}

#[test]
fn push_at_end_is_a_no_op() {
    let mut b = session(&["a"]);
    type_str(&mut b, "ab");
    assert_eq!(b.cursor(), Len::new(1, 1));
    assert_eq!(b.typed(), &['a']);
    assert!(b.errors().is_empty());
}

#[test]
fn pop_on_empty_is_a_no_op() {
    let mut b = session(&["a"]);
    b.pop();
    b.delete_word_backwards();
    assert_eq!(b.cursor(), Len::new(0, 0));
    assert!(b.typed().is_empty());
}

#[test]
fn push_then_pop_restores_state() {
    let mut b = session(&["h\u{e9}llo"]);
    b.push('x');
    let cursor = b.cursor();
    let typed = b.typed().to_vec();
    let errors = b.errors().to_vec();
    b.push('q');
    assert_eq!(b.errors().len(), errors.len() + 1);
    b.pop();
    assert_eq!(b.cursor(), cursor);
    assert_eq!(b.typed(), &typed[..]);
    assert_eq!(b.errors(), &errors[..]);
    assert_eq!(b.backspaced_errors(), &[Len::new(1, 1)]);
}

#[test]
fn pop_rewinds_over_multibyte_character() {
    let mut b = session(&["\u{e9}t\u{e9}"]);
    type_str(&mut b, "xyz");
    assert_eq!(b.cursor(), Len::new(5, 3));
    b.pop();
    assert_eq!(b.cursor(), Len::new(3, 2));
    assert_eq!(b.errors(), &[Len::new(0, 0), Len::new(2, 1)]);
    assert_eq!(b.backspaced_errors(), &[Len::new(3, 2)]);
    check_invariants(&b);
}

#[test]
fn clear_per_update_data_is_idempotent() {
    let mut b = session(&["ab"]);
    type_str(&mut b, "xy");
    b.pop();
    assert_eq!(b.backspaced_errors().len(), 1);
    b.clear_per_update_data();
    assert!(b.backspaced_errors().is_empty());
    b.clear_per_update_data();
    assert!(b.backspaced_errors().is_empty());
}

#[test]
fn deleted_errors_replace_earlier_ones() {
    let mut b = session(&["abc"]);
    type_str(&mut b, "xyz");
    b.pop();
    assert_eq!(b.backspaced_errors(), &[Len::new(2, 2)]);
    b.pop();
    assert_eq!(b.backspaced_errors(), &[Len::new(1, 1)]);
    assert_eq!(b.errors(), &[Len::new(0, 0)]);
}

#[test]
fn delete_word_removes_last_word_and_its_trailing_space() {
    let mut b = session(&["hello world foo"]);
    type_str(&mut b, "hello world ");
    b.delete_word_backwards();
    assert_eq!(b.cursor(), Len::new(6, 6));
    assert_eq!(b.typed().len(), 6);
    assert_eq!(b.last_cursor_position(), Len::new(12, 12));
}

#[test]
fn delete_word_counts_typed_and_canonical_in_lockstep() {
    let mut b = session(&["caf\u{e9} ol\u{e9}"]);
    type_str(&mut b, "cafe xyz");
    assert_eq!(b.cursor(), Len::new(10, 8));
    b.delete_word_backwards();
    assert_eq!(b.cursor(), Len::new(6, 5));
    assert_eq!(b.typed(), &['c', 'a', 'f', 'e', ' ']);
    assert_eq!(b.errors(), &[Len::new(3, 3)]);
    assert_eq!(b.backspaced_errors(), &[Len::new(6, 5), Len::new(7, 6), Len::new(8, 7)]);
    check_invariants(&b);
}

#[test]
fn scenario_hello_world_foo_delete_word() {
    let mut b = session(&["hello world foo"]);
    type_str(&mut b, "hello world foo");
    let before = b.cursor();
    let typed_before = b.typed().len();
    b.delete_word_backwards();
    assert_eq!(typed_before - b.typed().len(), 3);
    assert_eq!(before.chars - b.cursor().chars, 3);
    assert_eq!(before.bytes - b.cursor().bytes, 3);
}

#[test]
fn scenario_ab_cd_typing_ab_has_no_errors() {
    let mut b = session(&["ab", "cd"]);
    assert_eq!(b.text(), "ab\ncd");
    type_str(&mut b, "ab");
    assert!(b.errors().is_empty());
}

#[test]
fn invariants_hold_along_a_session() {
    let mut b = session(&["Th\u{e9} \u{201C}quick\u{201D} fox", "jumps"]);
    let keys = "Tha \"quack\" fx\nj";
    for c in keys.chars() {
        b.push(c);
        check_invariants(&b);
    }
    b.delete_word_backwards();
    check_invariants(&b);
    b.pop();
    check_invariants(&b);
    b.pop();
    b.pop();
    check_invariants(&b);
    b.push('z');
    check_invariants(&b);
}
