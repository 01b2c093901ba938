use ept::layout::{chars_of, lay_out, wrap_text, Linebreak, VirtualLine};
use ept::position::Len;

fn slice(text: &str, vl: &VirtualLine) -> String {
    text[vl.start.bytes..vl.end.bytes].to_string()
}

fn check_coverage(text: &str, lines: &[VirtualLine]) {
    assert_eq!(lines[0].start, Len::new(0, 0));
    let mut joined = String::new();
    for w in lines.windows(2) {
        assert_eq!(w[0].end.add(w[0].separator_len), w[1].start);
    }
    for vl in lines {
        joined.push_str(&text[vl.start.bytes..vl.end.bytes + vl.separator_len.bytes]);
    }
    let last = lines.last().unwrap();
    assert_eq!(last.linebreak, Linebreak::Eof);
    assert_eq!(last.end.bytes, text.len());
    assert_eq!(joined, text);
}

#[test]
fn scenario_paragraph_break() {
    let text = "ab\ncd";
    let lines = wrap_text(text, 10);
    assert_eq!(lines.len(), 2);
    assert_eq!(lines[0].line, 0);
    assert_eq!(slice(text, &lines[0]), "ab");
    assert_eq!(lines[0].linebreak, Linebreak::Existing);
    assert_eq!(lines[0].separator_len, Len::new(1, 1));
    assert_eq!(lines[1].line, 2);
    assert_eq!(slice(text, &lines[1]), "cd");
    assert_eq!(lines[1].linebreak, Linebreak::Eof);
    check_coverage(text, &lines);
}

#[test]
fn scenario_wrapped_words() {
    let text = "hello world foo";
    let lines = wrap_text(text, 5);
    let words: Vec<String> = lines.iter().map(|l| slice(text, l)).collect();
    assert_eq!(words, vec!["hello", "world", "foo"]);
    assert_eq!(lines[0].linebreak, Linebreak::Wrapped);
    assert_eq!(lines[1].linebreak, Linebreak::Wrapped);
    assert_eq!(lines[2].linebreak, Linebreak::Eof);
    assert_eq!(lines.iter().map(|l| l.line).collect::<Vec<_>>(), vec![0, 1, 2]);
    check_coverage(text, &lines);
}

#[test]
fn single_fragment_text() {
    let text = "short";
    let lines = wrap_text(text, 60);
    assert_eq!(lines.len(), 1);
    assert_eq!(lines[0].end, Len::new(5, 5));
    check_coverage(text, &lines);
}

#[test]
fn empty_text_has_one_empty_line() {
    let lines = wrap_text("", 10);
    assert_eq!(lines.len(), 1);
    assert_eq!(lines[0].start, lines[0].end);
    assert_eq!(lines[0].linebreak, Linebreak::Eof);
}

#[test]
fn coverage_with_multibyte_text_and_blank_paragraphs() {
    let text = "caf\u{e9} cr\u{e8}me br\u{fb}l\u{e9}e\n\nna\u{ef}ve   r\u{e9}sum\u{e9} \u{2014} fin\n";
    for width in 1..20u16 {
        let lines = wrap_text(text, width);
        check_coverage(text, &lines);
        for w in lines.windows(2) {
            let step = if w[0].linebreak == Linebreak::Existing { 2 } else { 1 };
            assert_eq!(w[1].line, w[0].line + step);
        }
    }
}

#[test]
fn lay_out_follows_fragments_by_counting() {
    let text = chars_of("ab  cd\n ef");
    let frags = vec![chars_of("ab"), chars_of("cd"), chars_of(" ef")];
    let lines = lay_out(&text, &frags);
    assert_eq!(lines.len(), 3);
    assert_eq!(lines[0].separator_len, Len::new(2, 2));
    assert_eq!(lines[0].linebreak, Linebreak::Wrapped);
    assert_eq!(lines[1].start, Len::new(4, 4));
    assert_eq!(lines[1].separator_len, Len::new(1, 1));
    assert_eq!(lines[1].linebreak, Linebreak::Existing);
    assert_eq!(lines[2].line, 3);
    assert_eq!(lines[2].start, Len::new(7, 7));
    assert_eq!(lines[2].end, Len::new(10, 10));
}
