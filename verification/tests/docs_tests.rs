use pipenet::docs::{DocSection, DocWidget};

#[test]
fn documentation_starts_closed_on_overview() {
    let w = DocWidget::default();
    assert!(!w.is_open);
    assert_eq!(w.selected_section, DocSection::Overview);
    assert_eq!(DocSection::default(), DocSection::Overview);
}
