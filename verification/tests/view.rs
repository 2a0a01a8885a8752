use article_core::document::Document;
use article_core::parse::parse;
use article_core::view::{ArticleView, Direction};

const SAMPLE: &[u8] = b"# Title\nHello world\n[target_a|A]\n[b]\n* item\n---\n";

#[test]
fn empty_view_is_inert() {
    let mut v = ArticleView::new(80, 24);
    assert_eq!(v.registered_links(), 0);
    assert_eq!(v.current_link(), None);
    assert_eq!(v.current_link_pos(), None);
    assert_eq!(v.activate(), None);
    v.navigate(Direction::Down, 3);
    v.navigate(Direction::Right, 1);
    assert_eq!(v.current_link(), None);
    assert_eq!(v.visible_range(), (0, 0));
}

#[test]
fn empty_document_has_no_links() {
    let mut v = ArticleView::new(80, 24);
    v.load(Document { elements: Vec::new(), toc: None });
    assert_eq!(v.registered_links(), 0);
    assert_eq!(v.current_link(), None);
    assert_eq!(v.activate(), None);
    v.navigate(Direction::Up, 1);
    v.navigate(Direction::Left, 1);
    assert_eq!(v.current_link(), None);
    assert_eq!(v.line_count(), 0);
}

#[test]
fn load_lays_out_and_indexes() {
    let mut v = ArticleView::new(20, 3);
    v.load(parse(SAMPLE, true).unwrap());
    assert_eq!(v.line_count(), 9);
    assert_eq!(v.registered_links(), 2);
    assert_eq!(v.current_link(), Some(0));
    assert_eq!(v.current_link_pos(), Some((0, 4)));
    assert_eq!(v.visible_range(), (0, 3));
    assert_eq!(v.line(4).text, b"A b".to_vec());
}

#[test]
fn navigate_scrolls_selection_into_view() {
    let mut v = ArticleView::new(20, 3);
    v.load(parse(SAMPLE, true).unwrap());
    v.navigate(Direction::Right, 1);
    assert_eq!(v.current_link(), Some(1));
    assert_eq!(v.current_link_pos(), Some((2, 4)));
    // Row 4 was below the three visible rows, so the view scrolled
    // down just far enough to show it.
    assert_eq!(v.visible_range(), (2, 5));
    assert_eq!(v.activate(), Some(b"b".to_vec()));
    v.navigate(Direction::Up, 1);
    assert_eq!(v.current_link(), Some(0));
    assert_eq!(v.visible_range(), (2, 5));
    assert_eq!(v.activate(), Some(b"target_a".to_vec()));
}

#[test]
fn resize_recomputes_and_keeps_selection() {
    let mut v = ArticleView::new(20, 3);
    v.load(parse(SAMPLE, true).unwrap());
    v.navigate(Direction::Right, 1);
    assert_eq!(v.current_link(), Some(1));
    v.resize(3);
    assert_eq!(v.line_count(), 10);
    assert_eq!(v.registered_links(), 2);
    assert_eq!(v.current_link(), Some(1));
    assert_eq!(v.current_link_pos(), Some((2, 5)));
    assert_eq!(v.line(5).text, b"A b".to_vec());
    assert_eq!(v.line(6).text, b"  item".to_vec());
}

#[test]
fn toc_travels_with_document() {
    let mut v = ArticleView::new(40, 10);
    v.load(parse(SAMPLE, true).unwrap());
    match v.document_ref() {
        Some(d) => {
            let toc = d.toc.as_ref().unwrap();
            assert_eq!(toc.len(), 1);
            assert_eq!(toc[0].title, vec![b"Title".to_vec()]);
        },
        None => panic!("document was loaded"),
    }
}
