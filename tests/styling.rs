use ept::position::Len;
use ept::style::{Style, Styling};

fn l(b: usize) -> Len {
    Len::new(b, b)
}

#[test]
fn adjacent_equal_styles_are_merged() {
    let mut b = Styling::builder();
    b.add(Style::bold(), l(0)..l(3));
    b.add(Style::bold(), l(3)..l(5));
    b.add(Style::italic(), l(5)..l(6));
    let s = b.build();
    assert_eq!(s.iter(l(0), l(6)), vec![(Style::bold(), l(5)), (Style::italic(), l(1))]);
}

#[test]
fn gaps_and_query_bounds_split_runs() {
    let mut b = Styling::builder();
    b.add(Style::bold(), l(2)..l(4));
    b.add(Style::empty(), l(4)..l(5));
    b.add(Style::bold(), l(6)..l(9));
    let s = b.build();
    assert_eq!(
        s.iter(l(1), l(8)),
        vec![
            (Style::empty(), l(1)),
            (Style::bold(), l(2)),
            (Style::empty(), l(2)),
            (Style::bold(), l(2)),
        ]
    );
    assert_eq!(s.iter(l(3), l(3)), vec![]);
    assert_eq!(s.iter(l(10), l(12)), vec![(Style::empty(), l(2))]);
}

#[test]
fn style_bits() {
    let bi = Style::bold().union(Style::italic());
    assert_eq!(bi.bits(), 3);
    assert!(bi.contains(Style::bold()));
    assert_eq!(bi.difference(Style::bold()), Style::italic());
    assert_eq!(Style::from_bits(4), Some(Style::center()));
    assert_eq!(Style::from_bits(8), None);
    assert!(Style::empty().is_empty());
}
