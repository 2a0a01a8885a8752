//! Document model: an ordered sequence of typed content elements plus
//! an optional table of contents pointing back into the elements.

use vstd::prelude::*;

verus! {

/// One typed content element of a parsed article, in document order.
/// Block text is kept word by word (each word a byte string); a link
/// carries the target reference and the literal display text.
#[derive(Clone, Debug, PartialEq, Eq)]
pub enum ContentElement {
    Heading { level: usize, words: Vec<Vec<u8>> },
    Paragraph { words: Vec<Vec<u8>> },
    ListItem { depth: usize, words: Vec<Vec<u8>> },
    LinkSpan { link_id: usize, target: Vec<u8>, text: Vec<u8> },
    Divider,
}

/// One table-of-contents entry: a heading's level and title words,
/// with the index of that heading in the document's element sequence.
#[derive(Clone, Debug, PartialEq, Eq)]
pub struct TocEntry {
    pub level: usize,
    pub title: Vec<Vec<u8>>,
    pub element_index: usize,
}

/// A parsed article: the element sequence is the single source of
/// truth for rendering; the table of contents is absent when the
/// source declares no sections (or was not requested).
#[derive(Clone, Debug, PartialEq, Eq)]
pub struct Document {
    pub elements: Vec<ContentElement>,
    pub toc: Option<Vec<TocEntry>>,
}

/// The mathematical view of a content element, over sequences.
pub enum ElemV {
    Heading { level: int, words: Seq<Seq<u8>> },
    Paragraph { words: Seq<Seq<u8>> },
    ListItem { depth: int, words: Seq<Seq<u8>> },
    LinkSpan { link_id: int, target: Seq<u8>, text: Seq<u8> },
    Divider,
}

impl DeepView for ContentElement {
    type V = ElemV;

    open spec fn deep_view(&self) -> ElemV {
        match self {
            ContentElement::Heading { level, words } => ElemV::Heading {
                level: *level as int,
                words: words.deep_view(),
            },
            ContentElement::Paragraph { words } => ElemV::Paragraph { words: words.deep_view() },
            ContentElement::ListItem { depth, words } => ElemV::ListItem {
                depth: *depth as int,
                words: words.deep_view(),
            },
            ContentElement::LinkSpan { link_id, target, text } => ElemV::LinkSpan {
                link_id: *link_id as int,
                target: target@,
                text: text@,
            },
            ContentElement::Divider => ElemV::Divider,
        }
    }
}

/// The mathematical view of a table-of-contents entry.
pub struct TocV {
    pub level: int,
    pub title: Seq<Seq<u8>>,
    pub element_index: int,
}

impl DeepView for TocEntry {
    type V = TocV;

    open spec fn deep_view(&self) -> TocV {
        TocV { level: self.level as int, title: self.title.deep_view(), element_index: self.element_index as int }
    }
}

/// Number of link elements in the sequence.
pub open spec fn link_count(elems: Seq<ContentElement>) -> int
    decreases elems.len(),
{
    if elems.len() == 0 {
        0
    } else {
        link_count(elems.drop_last()) + if elems.last() is LinkSpan {
            1int
        } else {
            0int
        }
    }
}

/// Every link element carries the id of its first-seen position:
/// the number of link elements strictly before it. Ids are therefore
/// unique and run 0, 1, 2, ... in document order.
pub open spec fn link_ids_in_order(elems: Seq<ContentElement>) -> bool {
    forall|i: int|
        0 <= i < elems.len() ==> (#[trigger] elems[i] matches ContentElement::LinkSpan {
            link_id,
            ..
        } ==> link_id == link_count(elems.take(i)))
}

/// Every table-of-contents entry points back at a heading element of
/// the same level and the same title words.
pub open spec fn toc_wf(entries: Seq<TocEntry>, elems: Seq<ContentElement>) -> bool {
    forall|i: int|
        0 <= i < entries.len() ==> {
            &&& #[trigger] entries[i].element_index < elems.len()
            &&& elems[entries[i].element_index as int] matches ContentElement::Heading {
                level,
                words,
            }
            &&& level == entries[i].level
            &&& words.deep_view() == entries[i].title.deep_view()
        }
}

impl Document {
    /// Well-formedness: link ids are assigned in first-seen order
    /// starting at 0, and the table of contents, when present, is
    /// non-empty and points back at matching headings.
    pub open spec fn wf(&self) -> bool {
        &&& link_ids_in_order(self.elements@)
        &&& self.toc matches Option::Some(entries) ==> toc_wf(entries@, self.elements@)
            && entries@.len() > 0
    }

    /// Number of link elements in the document.
    pub open spec fn spec_link_count(&self) -> int {
        link_count(self.elements@)
    }
}

/// The target reference of the first link element carrying `id`,
/// empty when no link carries it.
pub open spec fn link_target(elems: Seq<ContentElement>, id: usize) -> Seq<u8>
    decreases elems.len(),
{
    if elems.len() == 0 {
        Seq::empty()
    } else if elems[0] matches ContentElement::LinkSpan { link_id, target, .. } && link_id == id {
        elems[0]->target@
    } else {
        link_target(elems.drop_first(), id)
    }
}

/// Appending an element adds one to the link count exactly when the
/// element is a link.
pub proof fn lemma_link_count_push(elems: Seq<ContentElement>, e: ContentElement)
    ensures
        link_count(elems.push(e)) == link_count(elems) + if e is LinkSpan {
            1int
        } else {
            0int
        },
{
    assert(elems.push(e).drop_last() =~= elems);
}

/// A prefix extended by one element counts that element's links.
pub proof fn lemma_link_count_take_succ(elems: Seq<ContentElement>, i: int)
    requires
        0 <= i < elems.len(),
    ensures
        link_count(elems.take(i + 1)) == link_count(elems.take(i)) + if elems[i] is LinkSpan {
            1int
        } else {
            0int
        },
{
    assert(elems.take(i + 1).drop_last() =~= elems.take(i));
}

/// When link ids run in first-seen order, every id below the link
/// count is carried by some link element.
pub proof fn lemma_link_id_exists(elems: Seq<ContentElement>, id: int)
    requires
        link_ids_in_order(elems),
        0 <= id < link_count(elems),
    ensures
        exists|k: int|
            0 <= k < elems.len() && (#[trigger] elems[k] matches ContentElement::LinkSpan {
                link_id,
                ..
            } && link_id == id),
    decreases elems.len(),
{
    let front = elems.drop_last();
    assert(elems.take(elems.len() - 1) =~= front);
    assert(link_ids_in_order(front)) by {
        assert forall|i: int|
            0 <= i < front.len() implies (#[trigger] front[i]
            matches ContentElement::LinkSpan { link_id, .. } ==> link_id == link_count(
            front.take(i),
        )) by {
            assert(front[i] == elems[i]);
            assert(front.take(i) =~= elems.take(i));
        }
    }
    match elems.last() {
        ContentElement::LinkSpan { link_id: last_id, target, text } => {
            if last_id == id {
                assert(elems[elems.len() - 1] matches ContentElement::LinkSpan { link_id, .. }
                    && link_id == id);
            } else {
                lemma_link_id_exists(front, id);
                let k = choose|k: int|
                    0 <= k < front.len() && (#[trigger] front[k]
                        matches ContentElement::LinkSpan { link_id, .. } && link_id == id);
                assert(elems[k] == front[k]);
            }
        },
        _ => {
            lemma_link_id_exists(front, id);
            let k = choose|k: int|
                0 <= k < front.len() && (#[trigger] front[k]
                    matches ContentElement::LinkSpan { link_id, .. } && link_id == id);
            assert(elems[k] == front[k]);
        },
    }
}

/// Appending an element keeps link ids in first-seen order, provided
/// a link element carries the id that position assigns.
pub proof fn lemma_link_ids_push(elems: Seq<ContentElement>, e: ContentElement)
    requires
        link_ids_in_order(elems),
        e matches ContentElement::LinkSpan { link_id, .. } ==> link_id == link_count(elems),
    ensures
        link_ids_in_order(elems.push(e)),
{
    let s2 = elems.push(e);
    assert forall|i: int|
        0 <= i < s2.len() implies (#[trigger] s2[i] matches ContentElement::LinkSpan {
        link_id,
        ..
    } ==> link_id == link_count(s2.take(i))) by {
        if i < elems.len() {
            assert(s2[i] == elems[i]);
            assert(s2.take(i) =~= elems.take(i));
        } else {
            assert(s2[i] == e);
            assert(s2.take(i) =~= elems);
        }
    }
}

/// Appending an element leaves every table-of-contents entry valid.
pub proof fn lemma_toc_wf_push_elem(
    entries: Seq<TocEntry>,
    elems: Seq<ContentElement>,
    e: ContentElement,
)
    requires
        toc_wf(entries, elems),
    ensures
        toc_wf(entries, elems.push(e)),
{
    assert forall|i: int| 0 <= i < entries.len() implies {
        &&& #[trigger] entries[i].element_index < elems.push(e).len()
        &&& elems.push(e)[entries[i].element_index as int] matches ContentElement::Heading {
            level,
            words,
        }
        &&& level == entries[i].level
        &&& words.deep_view() == entries[i].title.deep_view()
    } by {
        assert(elems.push(e)[entries[i].element_index as int] == elems[entries[i].element_index as int]);
    }
}

/// Appending an entry that points at a matching heading keeps the
/// table of contents well-formed.
pub proof fn lemma_toc_wf_push_entry(
    entries: Seq<TocEntry>,
    elems: Seq<ContentElement>,
    t: TocEntry,
)
    requires
        toc_wf(entries, elems),
        t.element_index < elems.len(),
        elems[t.element_index as int] matches ContentElement::Heading { level, words }
            && level == t.level && words.deep_view() == t.title.deep_view(),
    ensures
        toc_wf(entries.push(t), elems),
{
    assert forall|i: int| 0 <= i < entries.push(t).len() implies {
        &&& #[trigger] entries.push(t)[i].element_index < elems.len()
        &&& elems[entries.push(t)[i].element_index as int] matches ContentElement::Heading {
            level,
            words,
        }
        &&& level == entries.push(t)[i].level
        &&& words.deep_view() == entries.push(t)[i].title.deep_view()
    } by {
        if i < entries.len() {
            assert(entries.push(t)[i] == entries[i]);
        } else {
            assert(entries.push(t)[i] == t);
        }
    }
}

} // verus!
