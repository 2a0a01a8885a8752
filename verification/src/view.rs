//! Article view: the one stateful component. It owns the current
//! document, its layout at the viewport width, and the navigation
//! index over the layout's link occurrences, plus the scroll offset;
//! it renders nothing and performs no input or output itself.

use vstd::prelude::*;

use crate::document::{lemma_link_id_exists, link_count, link_target, ContentElement, Document};
use crate::layout::{
    layout, lemma_layout_occ_ids, lemma_layout_occurrences, occs_reading_order, spec_layout,
    Layout, Line, Occurrence,
};
use crate::links::{
    down_result, find_link, left_result, reading_le, right_result, up_result, Link, LinkHandler,
};

verus! {

/// A directional navigation command.
#[derive(Clone, Copy, Debug, PartialEq, Eq, Structural)]
pub enum Direction {
    Up,
    Down,
    Left,
    Right,
}

/// The navigation index holds exactly the layout's occurrences, in
/// the same order, field for field.
pub open spec fn handler_matches(links: Seq<Link>, occs: Seq<(int, int, int)>) -> bool {
    &&& links.len() == occs.len()
    &&& forall|i: int|
        0 <= i < links.len() ==> (#[trigger] links[i]).id as int == occs[i].0 && links[i].x as int
            == occs[i].1 && links[i].y as int == occs[i].2
}

/// The scroll offset that keeps the row `y` visible in a viewport of
/// `height` rows starting at `scroll`: scrolls up to the row, or down
/// just far enough, or stays.
pub open spec fn scrolled_to(scroll: int, y: int, height: int) -> int {
    if y < scroll {
        y
    } else if height > 0 && y - scroll >= height {
        y + 1 - height
    } else {
        scroll
    }
}

/// Builds a navigation index from the layout's occurrences.
fn build_handler(occs: &Vec<Occurrence>) -> (h: LinkHandler)
    requires
        occs_reading_order(occs.deep_view()),
    ensures
        h.wf(),
        h.current() == 0,
        handler_matches(h.occurrences(), occs.deep_view()),
{
    let mut h = LinkHandler::new();
    let mut k: usize = 0;
    proof {
        assert(occs.deep_view().take(0) =~= Seq::<(int, int, int)>::empty());
    }
    while k < occs.len()
        invariant
            k <= occs@.len(),
            occs@.len() == occs.deep_view().len(),
            occs_reading_order(occs.deep_view()),
            h.wf(),
            h.current() == 0,
            handler_matches(h.occurrences(), occs.deep_view().take(k as int)),
        decreases occs@.len() - k,
    {
        let o = occs[k];
        proof {
            assert(occs.deep_view()[k as int] == (o.link_id as int, o.x as int, o.y as int));
            assert forall|i: int| 0 <= i < h.occurrences().len() implies reading_le(
                h.occurrences()[i],
                Link { id: o.link_id, x: o.x, y: o.y },
            ) by {
                assert(h.occurrences()[i].y as int == occs.deep_view().take(k as int)[i].2);
                assert(occs.deep_view().take(k as int)[i] == occs.deep_view()[i]);
            };
        }
        let ghost pre = h.occurrences();
        h.push_link(o.link_id, o.x, o.y);
        proof {
            assert(occs.deep_view().take(k as int + 1) =~= occs.deep_view().take(k as int).push(
                occs.deep_view()[k as int],
            ));
        }
        k = k + 1;
    }
    proof {
        assert(occs.deep_view().take(occs@.len() as int) =~= occs.deep_view());
    }
    h
}

/// The article view state machine: empty, or displaying one document
/// with its layout and navigation index.
pub struct ArticleView {
    document: Option<Document>,
    layout: Layout,
    handler: LinkHandler,
    width: usize,
    height: usize,
    scroll: usize,
}

impl ArticleView {
    /// The displayed document, if any.
    pub closed spec fn spec_document(&self) -> Option<Document> {
        self.document
    }

    /// The viewport width, in columns.
    pub closed spec fn spec_width(&self) -> usize {
        self.width
    }

    /// The viewport height, in rows.
    pub closed spec fn spec_height(&self) -> usize {
        self.height
    }

    /// The scroll offset: the index of the first visible row.
    pub closed spec fn spec_scroll(&self) -> int {
        self.scroll as int
    }

    /// The rows of the current layout.
    pub closed spec fn lines_model(&self) -> Seq<(Seq<u8>, int)> {
        self.layout.lines.deep_view()
    }

    /// The link occurrences of the current layout.
    pub closed spec fn occs_model(&self) -> Seq<(int, int, int)> {
        self.layout.link_occurrences.deep_view()
    }

    /// The links registered in the navigation index.
    pub closed spec fn occurrences(&self) -> Seq<Link> {
        self.handler.occurrences()
    }

    /// The index of the currently selected link.
    pub closed spec fn current(&self) -> int {
        self.handler.current()
    }

    /// Well-formedness: when a document is displayed, the layout is
    /// exactly the document's layout at the viewport width and the
    /// navigation index holds exactly its occurrences; when none is,
    /// everything is empty.
    pub open spec fn wf(&self) -> bool {
        &&& crate::links::sorted_reading(self.occurrences())
        &&& self.occurrences().len() == 0 ==> self.current() == 0
        &&& self.occurrences().len() > 0 ==> 0 <= self.current() < self.occurrences().len()
        &&& match self.spec_document() {
            Option::Some(d) => {
                &&& d.wf()
                &&& self.lines_model() == spec_layout(d.elements@, self.spec_width() as int).lines
                &&& self.occs_model() == spec_layout(d.elements@, self.spec_width() as int).occs
                &&& handler_matches(self.occurrences(), self.occs_model())
            },
            Option::None => {
                &&& self.lines_model().len() == 0
                &&& self.occs_model().len() == 0
                &&& self.occurrences().len() == 0
            },
        }
    }

    /// Creates an empty view for a viewport of the given size.
    pub fn new(width: usize, height: usize) -> (r: Self)
        ensures
            r.wf(),
            r.spec_document() is None,
            r.spec_width() == width,
            r.spec_height() == height,
            r.spec_scroll() == 0,
            r.current() == 0,
    {
        let r = ArticleView {
            document: None,
            layout: Layout { lines: Vec::new(), link_occurrences: Vec::new() },
            handler: LinkHandler::new(),
            width,
            height,
            scroll: 0,
        };
        r
    }

    /// Displays a document: lays it out at the viewport width,
    /// rebuilds the navigation index, and resets scroll and selection.
    pub fn load(&mut self, document: Document)
        requires
            old(self).wf(),
            document.wf(),
        ensures
            final(self).wf(),
            final(self).spec_document() == Option::Some(document),
            final(self).spec_width() == old(self).spec_width(),
            final(self).spec_height() == old(self).spec_height(),
            final(self).spec_scroll() == 0,
            final(self).current() == 0,
            final(self).occurrences().len() == link_count(document.elements@),
    {
        proof {
            lemma_layout_occurrences(document.elements@, self.width as int);
        }
        let lay = layout(&document, self.width);
        let h = build_handler(&lay.link_occurrences);
        self.layout = lay;
        self.handler = h;
        self.document = Some(document);
        self.scroll = 0;
    }

    /// Changes the viewport width: recomputes the layout and rebuilds
    /// the navigation index, keeping the selected link by its id when
    /// it still exists and falling back to the topmost link otherwise.
    pub fn resize(&mut self, width: usize)
        requires
            old(self).wf(),
        ensures
            final(self).wf(),
            final(self).spec_document() == old(self).spec_document(),
            final(self).spec_width() == width,
            final(self).spec_height() == old(self).spec_height(),
            final(self).spec_scroll() == old(self).spec_scroll(),
            old(self).occurrences().len() > 0 && final(self).occurrences().len() > 0
                ==> final(self).current() == find_link(
                final(self).occurrences(),
                old(self).occurrences()[old(self).current()].id,
                0,
            ),
            old(self).occurrences().len() == 0 || final(self).occurrences().len() == 0
                ==> final(self).current() == 0,
    {
        let keep = self.handler.get_current_link();
        let mut doc_opt: Option<Document> = None;
        core::mem::swap(&mut doc_opt, &mut self.document);
        match doc_opt {
            Some(d) => {
                proof {
                    lemma_layout_occurrences(d.elements@, width as int);
                }
                self.width = width;
                let lay = layout(&d, width);
                let h = build_handler(&lay.link_occurrences);
                self.layout = lay;
                self.handler = h;
                self.document = Some(d);
                match keep {
                    Some(id) => {
                        self.handler.set_current_link(id);
                    },
                    None => {},
                }
            },
            None => {
                self.width = width;
            },
        }
    }

    /// Moves the selection in the given direction and scrolls just as
    /// far as needed to keep the selected link inside the viewport; a
    /// no-op when no document or no links are displayed.
    pub fn navigate(&mut self, direction: Direction, amount: usize)
        requires
            old(self).wf(),
        ensures
            final(self).wf(),
            final(self).spec_document() == old(self).spec_document(),
            final(self).spec_width() == old(self).spec_width(),
            final(self).spec_height() == old(self).spec_height(),
            final(self).occurrences() == old(self).occurrences(),
            old(self).occurrences().len() == 0 ==> (final(self).current() == 0
                && final(self).spec_scroll() == old(self).spec_scroll()),
            old(self).occurrences().len() > 0 ==> final(self).current() == (match direction {
                Direction::Up => up_result(
                    old(self).occurrences(),
                    old(self).current(),
                    amount as int,
                ),
                Direction::Down => down_result(
                    old(self).occurrences(),
                    old(self).current(),
                    amount as int,
                ),
                Direction::Left => left_result(old(self).current(), amount as int),
                Direction::Right => right_result(
                    old(self).occurrences().len() as int,
                    old(self).current(),
                    amount as int,
                ),
            }),
            old(self).occurrences().len() > 0 ==> final(self).spec_scroll() == scrolled_to(
                old(self).spec_scroll(),
                final(self).occurrences()[final(self).current()].y as int,
                old(self).spec_height() as int,
            ),
    {
        match direction {
            Direction::Up => self.handler.move_up(amount),
            Direction::Down => self.handler.move_down(amount),
            Direction::Left => self.handler.move_left(amount),
            Direction::Right => self.handler.move_right(amount),
        }
        match self.handler.get_current_link_pos() {
            Some((x, y)) => {
                if y < self.scroll {
                    self.scroll = y;
                } else if self.height > 0 && y - self.scroll >= self.height {
                    self.scroll = y - (self.height - 1);
                }
            },
            None => {},
        }
    }

    /// The number of links in the displayed layout.
    pub fn registered_links(&self) -> (r: usize)
        ensures
            r == self.occurrences().len(),
    {
        self.handler.registered_links()
    }

    /// The id of the currently selected link, if any link is shown.
    pub fn current_link(&self) -> (r: Option<usize>)
        requires
            self.wf(),
        ensures
            r == if self.occurrences().len() == 0 {
                Option::<usize>::None
            } else {
                Option::Some(self.occurrences()[self.current()].id)
            },
    {
        self.handler.get_current_link()
    }

    /// The screen position of the currently selected link, if any.
    pub fn current_link_pos(&self) -> (r: Option<(usize, usize)>)
        requires
            self.wf(),
        ensures
            r == if self.occurrences().len() == 0 {
                Option::<(usize, usize)>::None
            } else {
                Option::Some(
                    (self.occurrences()[self.current()].x, self.occurrences()[self.current()].y),
                )
            },
    {
        self.handler.get_current_link_pos()
    }

    /// Resolves the current selection to its link target, for the
    /// host to fetch: the target of the document's link element whose
    /// id is selected. Nothing is emitted when no link is selected.
    pub fn activate(&self) -> (r: Option<Vec<u8>>)
        requires
            self.wf(),
        ensures
            r is Some <==> (self.spec_document() is Some && self.occurrences().len() > 0),
            r matches Some(t) ==> (self.spec_document() matches Some(d) && t@ == link_target(
                d.elements@,
                self.occurrences()[self.current()].id,
            )),
    {
        match &self.document {
            Some(d) => {
                match self.handler.get_current_link() {
                    Some(id) => {
                        proof {
                            lemma_layout_occ_ids(d.elements@, self.width as int);
                            lemma_layout_occurrences(d.elements@, self.width as int);
                            assert(id as int == self.occs_model()[self.current()].0);
                            assert((id as int) < link_count(d.elements@));
                            lemma_link_id_exists(d.elements@, id as int);
                        }
                        let ghost elems = d.elements@;
                        let mut k: usize = 0;
                        proof {
                            assert(elems.skip(0) =~= elems);
                        }
                        while k < d.elements.len()
                            invariant
                                k <= elems.len(),
                                elems == d.elements@,
                                self.wf(),
                                self.spec_document() == Option::Some(*d),
                                self.occurrences().len() > 0,
                                id == self.occurrences()[self.current()].id,
                                exists|m: int|
                                    k <= m < elems.len() && (#[trigger] elems[m]
                                        matches ContentElement::LinkSpan { link_id, .. }
                                        && link_id == id),
                                link_target(elems, id) == link_target(elems.skip(k as int), id),
                            decreases elems.len() - k,
                        {
                            let found = match &d.elements[k] {
                                ContentElement::LinkSpan { link_id, target, text } => *link_id
                                    == id,
                                _ => false,
                            };
                            proof {
                                assert(elems.skip(k as int)[0] == elems[k as int]);
                                assert(elems.skip(k as int).drop_first() =~= elems.skip(
                                    k as int + 1,
                                ));
                            }
                            if found {
                                match &d.elements[k] {
                                    ContentElement::LinkSpan { link_id, target, text } => {
                                        proof {
                                            assert(self.spec_document() is Some);
                                            assert(self.occurrences().len() > 0);
                                            assert(elems[k as int]
                                                matches ContentElement::LinkSpan {
                                                link_id: lid,
                                                ..
                                            } && lid == id);
                                            assert(link_target(elems.skip(k as int), id)
                                                == elems[k as int]->target@);
                                            assert(link_target(elems, id) == target@);
                                        }
                                        return Some(vstd::slice::slice_to_vec(target.as_slice()));
                                    },
                                    _ => {},
                                }
                            }
                            proof {
                                let m = choose|m: int|
                                    k <= m < elems.len() && (#[trigger] elems[m]
                                        matches ContentElement::LinkSpan { link_id, .. }
                                        && link_id == id);
                                assert(m != k);
                                assert(k as int + 1 <= m < elems.len() && (elems[m]
                                    matches ContentElement::LinkSpan { link_id, .. } && link_id
                                    == id));
                            }
                            k = k + 1;
                        }
                        proof {
                            assert(false);
                        }
                        None
                    },
                    None => None,
                }
            },
            None => None,
        }
    }

    /// The range of row indices that are visible: from the scroll
    /// offset, at most one viewport of rows, clamped to the rows that
    /// exist. The host renders exactly these rows.
    pub fn visible_range(&self) -> (r: (usize, usize))
        ensures
            r.0 as int == if self.spec_scroll() < self.lines_model().len() {
                self.spec_scroll()
            } else {
                self.lines_model().len() as int
            },
            r.1 as int == if self.spec_scroll() + self.spec_height() < self.lines_model().len() {
                self.spec_scroll() + self.spec_height()
            } else {
                self.lines_model().len() as int
            },
            r.0 <= r.1 <= self.lines_model().len(),
    {
        let total = self.layout.lines.len();
        proof {
            assert(self.lines_model().len() == self.layout.lines@.len());
        }
        let start = if self.scroll < total {
            self.scroll
        } else {
            total
        };
        let end = if self.height < total - start && self.scroll < total {
            start + self.height
        } else {
            total
        };
        (start, end)
    }

    /// The number of rows in the current layout.
    pub fn line_count(&self) -> (r: usize)
        ensures
            r == self.lines_model().len(),
    {
        proof {
            assert(self.lines_model().len() == self.layout.lines@.len());
        }
        self.layout.lines.len()
    }

    /// One row of the current layout.
    pub fn line(&self, i: usize) -> (r: &Line)
        requires
            i < self.lines_model().len(),
        ensures
            r.deep_view() == self.lines_model()[i as int],
    {
        proof {
            assert(self.lines_model().len() == self.layout.lines@.len());
            assert(self.lines_model()[i as int] == self.layout.lines@[i as int].deep_view());
        }
        &self.layout.lines[i]
    }

    /// The displayed document, for the host's table-of-contents panel.
    pub fn document_ref(&self) -> (r: &Option<Document>)
        ensures
            *r == self.spec_document(),
    {
        &self.document
    }
}

} // verus!
