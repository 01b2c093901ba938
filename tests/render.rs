use ept::backend::Backend;
use ept::chapter::{ChapterBuilder, Content};
use ept::display::{Action, Chapter, Display};
use ept::render::{Attr, ChapterDisplay, Dimensions, Key, TermOp};
use ept::style::Style;

fn backend(paragraphs: &[&str]) -> Backend {
    let mut b = ChapterBuilder::new();
    for p in paragraphs {
        b.add(Content::Text(Style::empty(), p));
        b.add(Content::Linebreak);
    }
    b.build()
}

fn opened(paragraphs: &[&str], width: u16) -> ChapterDisplay {
    let dims = Dimensions::new(width, 40, 11);
    let mut d = ChapterDisplay::enter(dims, backend(paragraphs));
    let mut out = Vec::new();
    assert!(d.render_chapter(&mut out));
    assert!(out.is_empty());
    d.full_render_chapter(&mut out);
    assert_eq!(out[0], TermOp::Hide);
    assert_eq!(out[1], TermOp::ClearAll);
    assert_eq!(out.last(), Some(&TermOp::Show));
    d
}

fn scrolls(out: &[TermOp]) -> Vec<TermOp> {
    out.iter()
        .filter(|op| matches!(op, TermOp::ScrollUp(_) | TermOp::ScrollDown(_)))
        .cloned()
        .collect()
}

fn printed(out: &[TermOp]) -> String {
    let mut s = String::new();
    for op in out {
        if let TermOp::Print(v) = op {
            s.extend(v.iter());
        }
    }
    s
}

#[test]
fn dimensions_centre_the_column() {
    let d = Dimensions::new(60, 40, 11);
    assert_eq!(d.width, 40);
    assert_eq!(d.anchor, (0, 5));
    let d = Dimensions::new(10, 40, 11);
    assert_eq!(d.anchor, (15, 5));
}

#[test]
fn scenario_wrapped_boundary_scrolls_one_row() {
    let mut d = opened(&["hello world foo"], 5);
    for c in "hello".chars() {
        d.handle_input(Key::Char(c));
        let mut out = Vec::new();
        assert!(!d.render_chapter(&mut out));
        assert!(scrolls(&out).is_empty());
    }
    d.handle_input(Key::Char(' '));
    let mut out = Vec::new();
    assert!(!d.render_chapter(&mut out));
    assert_eq!(scrolls(&out), vec![TermOp::ScrollUp(1)]);
    assert_eq!(out[0], TermOp::Hide);
    assert_eq!(out[1], TermOp::ScrollUp(1));
    assert_eq!(out[out.len() - 2], TermOp::MoveTo(18, 5));
    assert_eq!(out.last(), Some(&TermOp::Show));
}

#[test]
fn scenario_paragraph_boundary_scrolls_two_rows() {
    let mut d = opened(&["ab", "cd"], 10);
    d.handle_input(Key::Char('a'));
    d.handle_input(Key::Char('b'));
    let mut out = Vec::new();
    assert!(!d.render_chapter(&mut out));
    d.handle_input(Key::Enter);
    let mut out = Vec::new();
    assert!(!d.render_chapter(&mut out));
    assert_eq!(scrolls(&out), vec![TermOp::ScrollUp(2)]);
    assert!(d.backend().errors().is_empty());
    d.handle_input(Key::Backspace);
    let mut out = Vec::new();
    assert!(!d.render_chapter(&mut out));
    assert_eq!(scrolls(&out), vec![TermOp::ScrollDown(2)]);
}

#[test]
fn new_error_is_redrawn_in_error_style() {
    let mut d = opened(&["abc"], 10);
    d.handle_input(Key::Char('x'));
    let mut out = Vec::new();
    assert!(!d.render_chapter(&mut out));
    assert!(out.contains(&TermOp::SetAttr(ept::render::Attr::Reverse)));
    assert!(printed(&out).contains('a'));
    d.handle_input(Key::Backspace);
    let mut out = Vec::new();
    assert!(!d.render_chapter(&mut out));
    assert!(!out.contains(&TermOp::SetAttr(ept::render::Attr::Reverse)));
    assert!(printed(&out).contains('a'));
    assert!(d.backend().backspaced_errors().is_empty());
}

#[test]
fn full_render_prints_visible_lines() {
    let mut d = ChapterDisplay::enter(Dimensions::new(5, 40, 11), backend(&["hello world foo"]));
    let mut out = Vec::new();
    d.full_render_chapter(&mut out);
    assert_eq!(printed(&out), "hello world foo");
}

#[test]
fn display_selects_and_opens_chapters() {
    let chapters = vec![
        Chapter { name: "One".to_string(), depth: 0, index: 3 },
        Chapter { name: "Two".to_string(), depth: 1, index: 5 },
    ];
    let mut display = Display::new(chapters, 20, 40, 11);
    assert_eq!(display.handle_input(Key::Down), Action::Nothing);
    assert_eq!(display.handle_input(Key::Down), Action::Nothing);
    assert_eq!(display.handle_input(Key::Enter), Action::Open(5));
    assert_eq!(display.handle_input(Key::Char('k')), Action::Nothing);
    assert_eq!(display.handle_input(Key::Enter), Action::Open(3));
    let mut out = Vec::new();
    display.render(&mut out);
    assert_eq!(out[0], TermOp::Hide);
    assert!(printed(&out).contains("One"));
    display.open_chapter(backend(&["abc"]));
    display.handle_input(Key::Char('a'));
    let mut out = Vec::new();
    display.render(&mut out);
    assert_eq!(out[1], TermOp::ClearAll);
    assert_eq!(display.handle_input(Key::Esc), Action::Nothing);
    assert_eq!(display.handle_input(Key::Esc), Action::Quit);
}

#[test]
fn screen_lines_places_the_cursor_line_on_the_anchor_row() {
    let d = ChapterDisplay::enter(Dimensions::new(5, 40, 11), backend(&["hello world foo"]));
    let all = d.screen_lines(0..11);
    assert_eq!(all.iter().map(|l| l.row).collect::<Vec<_>>(), vec![5, 6, 7]);
    assert_eq!(all[1].line, d.lines()[1]);
    let one = d.screen_lines(6..7);
    assert_eq!(one.len(), 1);
    assert_eq!(one[0].row, 6);
    assert_eq!(one[0].line, d.lines()[1]);
    assert!(d.screen_lines(0..5).is_empty());
    assert_eq!(d.char_index_to_virtual_line(5), 0);
    assert_eq!(d.char_index_to_virtual_line(6), 1);
    assert_eq!(d.to_virtual(8), (2, 1));
}

#[test]
fn error_glyph_is_wrapped_in_error_style() {
    let mut d = opened(&["abc"], 10);
    d.handle_input(Key::Char('x'));
    let mut out = Vec::new();
    assert!(!d.render_chapter(&mut out));
    let start = out
        .iter()
        .position(|op| *op == TermOp::SetAttr(ept::render::Attr::Reverse))
        .unwrap();
    assert_eq!(out[start + 1], TermOp::SetForeground(ept::render::Color::Red));
    assert_eq!(out[start + 2], TermOp::MoveTo(15, 5));
    assert_eq!(out[start + 3], TermOp::Print(vec!['a']));
    assert_eq!(out[start + 4], TermOp::SetAttr(ept::render::Attr::Reset));
    assert_eq!(out[start + 5], TermOp::SetForeground(ept::render::Color::Reset));
    assert_eq!(out[start + 6], TermOp::SetAttr(ept::render::Attr::NoReverse));
    assert!(!out.contains(&TermOp::ClearAll));
}

#[test]
fn styles_switch_attributes_between_pieces() {
    let mut b = ChapterBuilder::new();
    b.add(Content::Text(Style::bold(), "ab"));
    b.add(Content::Text(Style::italic(), "cd"));
    b.add(Content::Text(Style::empty(), "e"));
    let mut d = ChapterDisplay::enter(Dimensions::new(10, 40, 11), b.build());
    let mut out = Vec::new();
    d.full_render_chapter(&mut out);
    let expected = vec![
        TermOp::MoveTo(15, 5),
        TermOp::SetAttr(Attr::Bold),
        TermOp::Print(vec!['a', 'b']),
        TermOp::SetAttr(Attr::NormalIntensity),
        TermOp::SetAttr(Attr::Italic),
        TermOp::Print(vec!['c', 'd']),
        TermOp::SetAttr(Attr::NoItalic),
        TermOp::Print(vec!['e']),
        TermOp::SetAttr(Attr::Reset),
    ];
    assert_eq!(out[2..out.len() - 2].to_vec(), expected);
}
