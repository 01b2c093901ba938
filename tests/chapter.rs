use ept::chapter::{Align, Block, ChapterBuilder, Content, Kind};
use ept::position::{utf8_width, Len};
use ept::style::Style;

#[test]
fn paragraphs_are_joined_by_one_newline() {
    let mut b = ChapterBuilder::new();
    b.add(Content::Title);
    b.add(Content::Linebreak);
    b.add(Content::Text(Style::empty(), "one"));
    b.add(Content::Linebreak);
    b.add(Content::Linebreak);
    b.add(Content::Image);
    b.add(Content::Text(Style::empty(), "two"));
    b.add(Content::Text(Style::empty(), " three"));
    let backend = b.build();
    assert_eq!(backend.text(), "one\ntwo three");
}

#[test]
fn dashes_ellipses_and_white_space_are_normalised() {
    let mut b = ChapterBuilder::new();
    b.add(Content::Text(Style::empty(), "  wait\u{2014}what\u{2026}\n   now"));
    assert_eq!(b.byte_len(), 17);
    let backend = b.build();
    assert_eq!(backend.text(), "wait--what... now");
}

#[test]
fn styled_text_gets_its_range() {
    let mut b = ChapterBuilder::new();
    b.add(Content::Text(Style::empty(), "a "));
    b.add(Content::Text(Style::italic(), "\u{e9}t\u{e9}"));
    b.add(Content::Text(Style::bold(), "!"));
    let backend = b.build();
    let runs = backend.style_iter(Len::new(0, 0), Len::new(8, 6));
    assert_eq!(
        runs,
        vec![
            (Style::empty(), Len::new(2, 2)),
            (Style::italic(), Len::new(5, 3)),
            (Style::bold(), Len::new(1, 1)),
        ]
    );
}

#[test]
fn block_new_keeps_its_fields() {
    let b = Block::new(Len::new(1, 1)..Len::new(4, 3), Kind::Quote, Some(Align::Center));
    assert_eq!(b.range, Len::new(1, 1)..Len::new(4, 3));
    assert_eq!(b.kind, Kind::Quote);
    assert_eq!(b.align, Some(Align::Center));
}

#[test]
fn utf8_widths() {
    assert_eq!(utf8_width('a'), 1);
    assert_eq!(utf8_width('\u{e9}'), 2);
    assert_eq!(utf8_width('\u{2019}'), 3);
    assert_eq!(utf8_width('\u{1F600}'), 4);
}

#[test]
fn len_arithmetic_and_order() {
    let a = Len::new(3, 2);
    let b = Len::new(5, 3);
    assert_eq!(a.add(b), Len::new(8, 5));
    assert_eq!(b.sub(a), Len::new(2, 1));
    assert!(a < b);
    assert_eq!(b.min(a), a);
}
