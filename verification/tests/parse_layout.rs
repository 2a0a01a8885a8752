use article_core::document::ContentElement;
use article_core::layout::layout;
use article_core::parse::{parse, ParseError};

const SAMPLE: &[u8] = b"# Title\nHello world\n[target_a|A]\n[b]\n* item\n---\n";

fn words(ws: &[&str]) -> Vec<Vec<u8>> {
    ws.iter().map(|w| w.as_bytes().to_vec()).collect()
}

#[test]
fn parse_empty_input_fails() {
    let r = parse(b"", true);
    assert!(matches!(r, Err(ParseError::Empty)));
}

#[test]
fn parse_non_ascii_is_malformed() {
    let r = parse(&[35, 32, 200, 10], true);
    assert!(matches!(r, Err(ParseError::Malformed(_))));
}

#[test]
fn parse_sample_elements() {
    let d = parse(SAMPLE, true).unwrap();
    assert_eq!(d.elements.len(), 6);
    assert_eq!(
        d.elements[0],
        ContentElement::Heading { level: 1, words: words(&["Title"]) }
    );
    assert_eq!(
        d.elements[1],
        ContentElement::Paragraph { words: words(&["Hello", "world"]) }
    );
    assert_eq!(
        d.elements[2],
        ContentElement::LinkSpan {
            link_id: 0,
            target: b"target_a".to_vec(),
            text: b"A".to_vec(),
        }
    );
    assert_eq!(
        d.elements[3],
        ContentElement::LinkSpan { link_id: 1, target: b"b".to_vec(), text: b"b".to_vec() }
    );
    assert_eq!(
        d.elements[4],
        ContentElement::ListItem { depth: 1, words: words(&["item"]) }
    );
    assert_eq!(d.elements[5], ContentElement::Divider);
}

#[test]
fn parse_builds_toc_when_enabled() {
    let d = parse(SAMPLE, true).unwrap();
    let toc = d.toc.unwrap();
    assert_eq!(toc.len(), 1);
    assert_eq!(toc[0].level, 1);
    assert_eq!(toc[0].title, words(&["Title"]));
    assert_eq!(toc[0].element_index, 0);
}

#[test]
fn parse_no_toc_when_disabled() {
    let d = parse(SAMPLE, false).unwrap();
    assert!(d.toc.is_none());
}

#[test]
fn parse_no_toc_without_headings() {
    let d = parse(b"just a paragraph", true).unwrap();
    assert!(d.toc.is_none());
}

#[test]
fn parse_deep_heading_stays_out_of_toc() {
    let d = parse(b"####### Deep\n# Top\n", true).unwrap();
    let toc = d.toc.unwrap();
    assert_eq!(toc.len(), 1);
    assert_eq!(toc[0].level, 1);
    assert_eq!(toc[0].element_index, 1);
}

#[test]
fn parse_demotes_empty_target_link() {
    let d = parse(b"[|text]", true).unwrap();
    assert_eq!(
        d.elements[0],
        ContentElement::Paragraph { words: words(&["[|text]"]) }
    );
    let d2 = parse(b"[]", true).unwrap();
    assert_eq!(d2.elements[0], ContentElement::Paragraph { words: words(&["[]"]) });
}

#[test]
fn parse_link_without_display_uses_target() {
    let d = parse(b"[abc]", true).unwrap();
    assert_eq!(
        d.elements[0],
        ContentElement::LinkSpan { link_id: 0, target: b"abc".to_vec(), text: b"abc".to_vec() }
    );
}

#[test]
fn layout_sample_lines_and_occurrences() {
    let d = parse(SAMPLE, true).unwrap();
    let lay = layout(&d, 20);
    let texts: Vec<&[u8]> = lay.lines.iter().map(|l| l.text.as_slice()).collect();
    assert_eq!(
        texts,
        vec![
            b"Title".as_slice(),
            b"",
            b"Hello world",
            b"",
            b"A b",
            b"  item",
            b"",
            b"--------------------",
            b"",
        ]
    );
    assert_eq!(lay.lines[4].source, 2);
    assert_eq!(lay.lines[5].source, 4);
    assert_eq!(lay.link_occurrences.len(), 2);
    assert_eq!(
        (lay.link_occurrences[0].link_id, lay.link_occurrences[0].x, lay.link_occurrences[0].y),
        (0, 0, 4)
    );
    assert_eq!(
        (lay.link_occurrences[1].link_id, lay.link_occurrences[1].x, lay.link_occurrences[1].y),
        (1, 2, 4)
    );
}

#[test]
fn layout_occurrence_count_matches_links() {
    let d = parse(SAMPLE, true).unwrap();
    let lay = layout(&d, 30);
    let n_links = d
        .elements
        .iter()
        .filter(|e| matches!(e, ContentElement::LinkSpan { .. }))
        .count();
    assert_eq!(lay.link_occurrences.len(), n_links);
    // Reading order: rows non-decreasing, columns increasing per row.
    for w in lay.link_occurrences.windows(2) {
        assert!(w[0].y < w[1].y || (w[0].y == w[1].y && w[0].x < w[1].x));
    }
}

#[test]
fn layout_is_deterministic() {
    let d = parse(SAMPLE, true).unwrap();
    let a = layout(&d, 13);
    let b = layout(&d, 13);
    assert_eq!(a, b);
}

#[test]
fn layout_width_zero_degrades_gracefully() {
    let d = parse(SAMPLE, true).unwrap();
    let lay = layout(&d, 0);
    assert!(lay.lines.len() >= d.elements.len());
    let texts: Vec<&[u8]> = lay.lines.iter().map(|l| l.text.as_slice()).collect();
    assert_eq!(
        texts,
        vec![
            b"Title".as_slice(),
            b"",
            b"Hello",
            b"world",
            b"",
            b"A",
            b"b",
            b"item",
            b"",
            b"",
            b"",
        ]
    );
    assert_eq!(lay.link_occurrences.len(), 2);
    assert_eq!(
        (lay.link_occurrences[0].link_id, lay.link_occurrences[0].x, lay.link_occurrences[0].y),
        (0, 0, 5)
    );
    assert_eq!(
        (lay.link_occurrences[1].link_id, lay.link_occurrences[1].x, lay.link_occurrences[1].y),
        (1, 0, 6)
    );
}

#[test]
fn layout_wraps_words_to_width() {
    let d = parse(b"alpha beta gamma", true).unwrap();
    let lay = layout(&d, 10);
    let texts: Vec<&[u8]> = lay.lines.iter().map(|l| l.text.as_slice()).collect();
    assert_eq!(texts, vec![b"alpha beta".as_slice(), b"gamma", b""]);
}
