//! Layout engine: turns a document and a viewport width into an
//! ordered sequence of terminal rows, each annotated with the element
//! it came from, together with the screen position of every link.
//!
//! The layout is a pure function of the document and the width. Block
//! elements (headings, paragraphs, list items, dividers) are
//! word-wrapped to the width and followed by one explicit blank
//! separator row; link elements flow inline, several to a row when
//! they fit, and each records exactly one occurrence at the position
//! of the first character of its display text.

use vstd::prelude::*;

use crate::document::{link_count, ContentElement, Document};

verus! {

/// One full terminal row: its text and the index of the element in
/// the document's element sequence that produced it.
#[derive(Clone, Debug, PartialEq, Eq)]
pub struct Line {
    pub text: Vec<u8>,
    pub source: usize,
}

impl DeepView for Line {
    type V = (Seq<u8>, int);

    open spec fn deep_view(&self) -> (Seq<u8>, int) {
        (self.text@, self.source as int)
    }
}

/// One link occurrence: the link id and the column and row of the
/// first rendered character of the link's display text.
#[derive(Clone, Copy, Debug, PartialEq, Eq, Structural)]
pub struct Occurrence {
    pub link_id: usize,
    pub x: usize,
    pub y: usize,
}

impl DeepView for Occurrence {
    type V = (int, int, int);

    open spec fn deep_view(&self) -> (int, int, int) {
        (self.link_id as int, self.x as int, self.y as int)
    }
}

/// A width-specific rendering of one document.
#[derive(Clone, Debug, PartialEq, Eq)]
pub struct Layout {
    pub lines: Vec<Line>,
    pub link_occurrences: Vec<Occurrence>,
}

/// The mathematical model of a layout in the making: the finished
/// rows, the recorded occurrences, and the open inline row that link
/// elements are flowing into (`flowing` says whether one is open).
#[verifier::ext_equal]
pub struct LayoutState {
    pub lines: Seq<(Seq<u8>, int)>,
    pub occs: Seq<(int, int, int)>,
    pub pending: Seq<u8>,
    pub pending_src: int,
    pub flowing: bool,
}

/// `n` spaces.
pub open spec fn spaces(n: int) -> Seq<u8> {
    Seq::new(n as nat, |i: int| 32u8)
}

/// `n` dashes.
pub open spec fn dashes(n: int) -> Seq<u8> {
    Seq::new(n as nat, |i: int| 45u8)
}

/// Greedy word wrap: words are packed onto a row while they fit in
/// `w` columns with single separating spaces; a word that does not
/// fit starts the next row (a word alone on a row may overflow `w`).
/// Even an empty word list yields one (empty) row.
pub open spec fn wrap_rec(
    words: Seq<Seq<u8>>,
    w: int,
    done: Seq<Seq<u8>>,
    cur: Seq<u8>,
    started: bool,
) -> Seq<Seq<u8>>
    decreases words.len(),
{
    if words.len() == 0 {
        if started {
            done.push(cur)
        } else {
            done.push(Seq::empty())
        }
    } else {
        let wd = words[0];
        let rest = words.drop_first();
        if !started {
            wrap_rec(rest, w, done, wd, true)
        } else if cur.len() + 1 + wd.len() <= w {
            wrap_rec(rest, w, done, cur.push(32u8) + wd, true)
        } else {
            wrap_rec(rest, w, done.push(cur), wd, true)
        }
    }
}

/// The rows that wrapping `words` to `w` columns produces.
pub open spec fn wrap_words(words: Seq<Seq<u8>>, w: int) -> Seq<Seq<u8>> {
    wrap_rec(words, w, Seq::empty(), Seq::empty(), false)
}

/// The indent of a list item: two columns per nesting depth, clamped
/// to the width.
pub open spec fn list_indent(depth: int, w: int) -> int {
    if 2 * depth <= w {
        2 * depth
    } else {
        w
    }
}

/// The empty layout state.
pub open spec fn init_state() -> LayoutState {
    LayoutState {
        lines: Seq::empty(),
        occs: Seq::empty(),
        pending: Seq::empty(),
        pending_src: 0,
        flowing: false,
    }
}

/// Closes the open inline row, if one is open, by emitting it.
pub open spec fn flush(st: LayoutState) -> LayoutState {
    if st.flowing {
        LayoutState {
            lines: st.lines.push((st.pending, st.pending_src)),
            pending: Seq::empty(),
            pending_src: 0,
            flowing: false,
            ..st
        }
    } else {
        st
    }
}

/// A block element: closes any open inline row, emits the wrapped
/// rows (each prefixed by `indent` spaces), then one blank separator
/// row, all annotated with the element index `idx`.
pub open spec fn block_step(
    st: LayoutState,
    wrapped: Seq<Seq<u8>>,
    indent: int,
    idx: int,
) -> LayoutState {
    let st1 = flush(st);
    LayoutState {
        lines: st1.lines + wrapped.map(|i: int, l: Seq<u8>| (spaces(indent) + l, idx)) + seq![
            (Seq::<u8>::empty(), idx),
        ],
        ..st1
    }
}

/// A link element: its display text joins the open inline row when it
/// fits behind one separating space, else it opens a new row (closing
/// the previous one); exactly one occurrence is recorded, at the
/// position of the text's first character.
pub open spec fn link_step(
    st: LayoutState,
    id: usize,
    text: Seq<u8>,
    idx: int,
    w: int,
) -> LayoutState {
    if !st.flowing {
        LayoutState {
            occs: st.occs.push((id as int, 0, st.lines.len() as int)),
            pending: text,
            pending_src: idx,
            flowing: true,
            ..st
        }
    } else if st.pending.len() + 1 + text.len() <= w {
        LayoutState {
            occs: st.occs.push(
                (id as int, st.pending.len() + 1 as int, st.lines.len() as int),
            ),
            pending: st.pending.push(32u8) + text,
            ..st
        }
    } else {
        LayoutState {
            lines: st.lines.push((st.pending, st.pending_src)),
            occs: st.occs.push((id as int, 0, st.lines.len() + 1 as int)),
            pending: text,
            pending_src: idx,
            flowing: true,
            ..st
        }
    }
}

/// The rows and the occurrence that one element contributes.
pub open spec fn elem_step(st: LayoutState, e: ContentElement, idx: int, w: int) -> LayoutState {
    match e {
        ContentElement::Heading { level, words } => block_step(
            st,
            wrap_words(words.deep_view(), w),
            0,
            idx,
        ),
        ContentElement::Paragraph { words } => block_step(
            st,
            wrap_words(words.deep_view(), w),
            0,
            idx,
        ),
        ContentElement::ListItem { depth, words } => block_step(
            st,
            wrap_words(words.deep_view(), w - list_indent(depth as int, w)),
            list_indent(depth as int, w),
            idx,
        ),
        ContentElement::Divider => block_step(st, seq![dashes(w)], 0, idx),
        ContentElement::LinkSpan { link_id, target, text } => link_step(
            st,
            link_id,
            text@,
            idx,
            w,
        ),
    }
}

/// Folds the elements from index `i` on into the state.
pub open spec fn layout_from(
    elems: Seq<ContentElement>,
    i: int,
    st: LayoutState,
    w: int,
) -> LayoutState
    decreases elems.len() - i,
{
    if i < 0 || i >= elems.len() {
        st
    } else {
        layout_from(elems, i + 1, elem_step(st, elems[i], i, w), w)
    }
}

/// The layout of a document's elements at width `w`: the fold over
/// all elements, with the last inline row closed.
pub open spec fn spec_layout(elems: Seq<ContentElement>, w: int) -> LayoutState {
    flush(layout_from(elems, 0, init_state(), w))
}

/// Occurrences stand in reading order: strictly increasing rows, and
/// strictly increasing columns within one row.
pub open spec fn occs_reading_order(occs: Seq<(int, int, int)>) -> bool {
    forall|i: int, j: int|
        0 <= i < j < occs.len() ==> (occs[i].2 < occs[j].2 || (occs[i].2 == occs[j].2 && occs[i].1
            < occs[j].1))
}

/// The occurrences of a state in the making are in reading order,
/// have non-negative coordinates, and sit at rows that already exist
/// or, while an inline row is open, at that row at columns inside it.
pub open spec fn state_inv(st: LayoutState) -> bool {
    &&& occs_reading_order(st.occs)
    &&& forall|k: int|
        0 <= k < st.occs.len() ==> 0 <= #[trigger] st.occs[k].1 && 0 <= st.occs[k].2
    &&& if st.flowing {
        forall|k: int|
            0 <= k < st.occs.len() ==> #[trigger] st.occs[k].2 <= st.lines.len() && (st.occs[k].2
                == st.lines.len() ==> st.occs[k].1 <= st.pending.len())
    } else {
        forall|k: int| 0 <= k < st.occs.len() ==> #[trigger] st.occs[k].2 < st.lines.len()
    }
}

/// One element preserves the state invariant, never removes a row or
/// an occurrence, and records exactly one occurrence when and only
/// when the element is a link.
proof fn lemma_elem_step_inv(st: LayoutState, e: ContentElement, idx: int, w: int)
    requires
        state_inv(st),
    ensures
        state_inv(elem_step(st, e, idx, w)),
        elem_step(st, e, idx, w).occs.len() == st.occs.len() + if e is LinkSpan {
            1int
        } else {
            0int
        },
        forall|k: int|
            0 <= k < st.occs.len() ==> #[trigger] elem_step(st, e, idx, w).occs[k] == st.occs[k],
{
    let r = elem_step(st, e, idx, w);
    match e {
        ContentElement::LinkSpan { link_id, target, text } => {
            assert(state_inv(r));
        },
        _ => {
            assert(r.occs == st.occs);
            assert(state_inv(r));
        },
    }
}

/// Folding the elements from `i` on preserves the state invariant and
/// adds one occurrence per remaining link element.
proof fn lemma_layout_from_inv(elems: Seq<ContentElement>, i: int, st: LayoutState, w: int)
    requires
        0 <= i <= elems.len(),
        state_inv(st),
    ensures
        state_inv(layout_from(elems, i, st, w)),
        layout_from(elems, i, st, w).occs.len() == st.occs.len() + link_count(elems) - link_count(
            elems.take(i),
        ),
    decreases elems.len() - i,
{
    if i >= elems.len() {
        assert(elems.take(i) =~= elems);
    } else {
        lemma_elem_step_inv(st, elems[i], i, w);
        crate::document::lemma_link_count_take_succ(elems, i);
        lemma_layout_from_inv(elems, i + 1, elem_step(st, elems[i], i, w), w);
    }
}

/// The layout of any document has exactly one link occurrence per
/// link element, and the occurrences stand in reading order: rows
/// non-decreasing, columns strictly increasing within one row.
pub proof fn lemma_layout_occurrences(elems: Seq<ContentElement>, w: int)
    ensures
        spec_layout(elems, w).occs.len() == link_count(elems),
        occs_reading_order(spec_layout(elems, w).occs),
{
    assert(elems.take(0) =~= Seq::<ContentElement>::empty());
    lemma_layout_from_inv(elems, 0, init_state(), w);
}

/// Folding from `i` over elements whose link ids run in first-seen
/// order keeps occurrence ids equal to occurrence positions.
proof fn lemma_layout_from_ids(elems: Seq<ContentElement>, i: int, st: LayoutState, w: int)
    requires
        0 <= i <= elems.len(),
        crate::document::link_ids_in_order(elems),
        st.occs.len() == link_count(elems.take(i)),
        forall|k: int| 0 <= k < st.occs.len() ==> #[trigger] st.occs[k].0 == k,
    ensures
        forall|k: int|
            0 <= k < layout_from(elems, i, st, w).occs.len() ==> #[trigger] layout_from(
                elems,
                i,
                st,
                w,
            ).occs[k].0 == k,
    decreases elems.len() - i,
{
    if i < elems.len() {
        crate::document::lemma_link_count_take_succ(elems, i);
        let st2 = elem_step(st, elems[i], i, w);
        match elems[i] {
            ContentElement::LinkSpan { link_id, target, text } => {
                assert(link_id == link_count(elems.take(i)));
                assert(st2.occs.len() == st.occs.len() + 1);
                assert(st2.occs[st.occs.len() as int].0 == link_id as int);
                assert(forall|k: int|
                    0 <= k < st.occs.len() ==> st2.occs[k] == #[trigger] st.occs[k]);
                assert(forall|k: int| 0 <= k < st2.occs.len() ==> #[trigger] st2.occs[k].0 == k);
            },
            _ => {
                assert(st2.occs == st.occs);
            },
        }
        assert(st2.occs.len() == link_count(elems.take(i + 1)));
        lemma_layout_from_ids(elems, i + 1, st2, w);
        assert(layout_from(elems, i, st, w) == layout_from(elems, i + 1, st2, w));
    }
}

/// In the layout of a document whose link ids run in first-seen order
/// from 0, the occurrence at position `k` carries link id `k`.
pub proof fn lemma_layout_occ_ids(elems: Seq<ContentElement>, w: int)
    requires
        crate::document::link_ids_in_order(elems),
    ensures
        forall|k: int|
            0 <= k < spec_layout(elems, w).occs.len() ==> #[trigger] spec_layout(
                elems,
                w,
            ).occs[k].0 == k,
{
    assert(elems.take(0) =~= Seq::<ContentElement>::empty());
    lemma_layout_from_ids(elems, 0, init_state(), w);
}

/// The layout is a pure function of the document and the width: two
/// layouts of the same elements at the same width are identical.
pub proof fn lemma_layout_deterministic(
    a: LayoutState,
    b: LayoutState,
    elems: Seq<ContentElement>,
    w: int,
)
    requires
        a == spec_layout(elems, w),
        b == spec_layout(elems, w),
    ensures
        a == b,
{
}

/// At width zero every element still yields at least one row: rows
/// plus the open inline row grow by at least one per element.
proof fn lemma_elem_step_grows(st: LayoutState, e: ContentElement, idx: int)
    ensures
        elem_step(st, e, idx, 0).lines.len() + (if elem_step(st, e, idx, 0).flowing {
            1int
        } else {
            0int
        }) >= st.lines.len() + (if st.flowing {
            1int
        } else {
            0int
        }) + 1,
{
    match e {
        ContentElement::LinkSpan { link_id, target, text } => {},
        ContentElement::Heading { level, words } => {
            lemma_wrap_rec_grows(words.deep_view(), 0, Seq::empty(), Seq::empty(), false);
        },
        ContentElement::Paragraph { words } => {
            lemma_wrap_rec_grows(words.deep_view(), 0, Seq::empty(), Seq::empty(), false);
        },
        ContentElement::ListItem { depth, words } => {
            lemma_wrap_rec_grows(
                words.deep_view(),
                0 - list_indent(depth as int, 0),
                Seq::empty(),
                Seq::empty(),
                false,
            );
        },
        ContentElement::Divider => {},
    }
}

/// Wrapping yields more rows than were already done.
proof fn lemma_wrap_rec_grows(
    words: Seq<Seq<u8>>,
    w: int,
    done: Seq<Seq<u8>>,
    cur: Seq<u8>,
    started: bool,
)
    ensures
        wrap_rec(words, w, done, cur, started).len() > done.len(),
    decreases words.len(),
{
    if words.len() > 0 {
        let wd = words[0];
        let rest = words.drop_first();
        if !started {
            lemma_wrap_rec_grows(rest, w, done, wd, true);
        } else if cur.len() + 1 + wd.len() <= w {
            lemma_wrap_rec_grows(rest, w, done, cur.push(32u8) + wd, true);
        } else {
            lemma_wrap_rec_grows(rest, w, done.push(cur), wd, true);
        }
    }
}

/// Folding from `i` at width zero grows the row count by at least one
/// per element.
proof fn lemma_layout_from_grows(elems: Seq<ContentElement>, i: int, st: LayoutState)
    requires
        0 <= i <= elems.len(),
    ensures
        layout_from(elems, i, st, 0).lines.len() + (if layout_from(elems, i, st, 0).flowing {
            1int
        } else {
            0int
        }) >= st.lines.len() + (if st.flowing {
            1int
        } else {
            0int
        }) + (elems.len() - i),
    decreases elems.len() - i,
{
    if i < elems.len() {
        lemma_elem_step_grows(st, elems[i], i);
        lemma_layout_from_grows(elems, i + 1, elem_step(st, elems[i], i, 0));
    }
}

/// Laying out at width zero produces at least one row per element
/// (and, being a verified total function, neither panics nor loops).
pub proof fn lemma_width_zero_line_per_element(elems: Seq<ContentElement>)
    ensures
        spec_layout(elems, 0).lines.len() >= elems.len(),
{
    lemma_layout_from_grows(elems, 0, init_state());
}

/// Appends the bytes of `src` to `dst`.
fn extend_bytes(dst: &mut Vec<u8>, src: &[u8])
    ensures
        final(dst)@ == old(dst)@ + src@,
{
    proof {
        assert(dst@ + src@.take(0) =~= dst@);
    }
    let mut i: usize = 0;
    while i < src.len()
        invariant
            i <= src@.len(),
            dst@ == old(dst)@ + src@.take(i as int),
        decreases src@.len() - i,
    {
        let b = src[i];
        dst.push(b);
        proof {
            assert(dst@ =~= old(dst)@ + src@.take(i as int + 1));
        }
        i = i + 1;
    }
    proof {
        assert(src@.take(src@.len() as int) =~= src@);
    }
}

/// A vector of `n` copies of one byte.
fn repeat_byte(b: u8, n: usize) -> (r: Vec<u8>)
    ensures
        r@ == Seq::new(n as nat, |i: int| b),
{
    let mut v: Vec<u8> = Vec::new();
    proof {
        assert(v@ =~= Seq::new(0, |i: int| b));
    }
    let mut i: usize = 0;
    while i < n
        invariant
            i <= n,
            v@ == Seq::new(i as nat, |k: int| b),
        decreases n - i,
    {
        v.push(b);
        proof {
            assert(v@ =~= Seq::new(i as nat + 1, |k: int| b));
        }
        i = i + 1;
    }
    v
}

/// Word-wraps `words` to `w` columns, greedily.
fn wrap_words_exec(words: &Vec<Vec<u8>>, w: usize) -> (r: Vec<Vec<u8>>)
    ensures
        r.deep_view() == wrap_words(words.deep_view(), w as int),
{
    let ghost target = wrap_words(words.deep_view(), w as int);
    let mut done: Vec<Vec<u8>> = Vec::new();
    let mut cur: Vec<u8> = Vec::new();
    let mut started: bool = false;
    let mut k: usize = 0;
    proof {
        assert(words.deep_view().skip(0) =~= words.deep_view());
        assert(done.deep_view() =~= Seq::<Seq<u8>>::empty());
    }
    while k < words.len()
        invariant
            k <= words@.len(),
            words@.len() == words.deep_view().len(),
            wrap_rec(
                words.deep_view().skip(k as int),
                w as int,
                done.deep_view(),
                cur@,
                started,
            ) == target,
        decreases words@.len() - k,
    {
        let ghost pre_done = done.deep_view();
        let ghost pre_cur = cur@;
        let ghost pre_started = started;
        proof {
            assert(words.deep_view().skip(k as int).drop_first() =~= words.deep_view().skip(
                k as int + 1,
            ));
            assert(words.deep_view().skip(k as int)[0] == words.deep_view()[k as int]);
            assert(words.deep_view()[k as int] =~~= words@[k as int]@);
        }
        let wd = &words[k];
        if !started {
            cur = vstd::slice::slice_to_vec(wd.as_slice());
            started = true;
        } else if cur.len() < w && wd.len() <= w - cur.len() - 1 {
            cur.push(32u8);
            extend_bytes(&mut cur, wd.as_slice());
            proof {
                assert(cur@ =~= pre_cur.push(32u8) + words@[k as int]@);
            }
        } else {
            proof {
                assert(!(pre_cur.len() + 1 + words@[k as int]@.len() <= w as int));
            }
            done.push(cur);
            cur = vstd::slice::slice_to_vec(wd.as_slice());
            proof {
                assert(done.deep_view() =~~= pre_done.push(pre_cur));
            }
        }
        k = k + 1;
    }
    proof {
        assert(words.deep_view().skip(words@.len() as int) =~= Seq::<Seq<u8>>::empty());
    }
    if started {
        let ghost pre_done = done.deep_view();
        let ghost pre_cur = cur@;
        done.push(cur);
        proof {
            assert(done.deep_view() =~~= pre_done.push(pre_cur));
        }
    } else {
        let ghost pre_done = done.deep_view();
        done.push(Vec::new());
        proof {
            assert(done.deep_view() =~~= pre_done.push(Seq::<u8>::empty()));
        }
    }
    done
}

/// A layout in the making: the exec counterpart of `LayoutState`.
struct LayoutBuilder {
    lines: Vec<Line>,
    occs: Vec<Occurrence>,
    pending: Vec<u8>,
    pending_src: usize,
    flowing: bool,
}

impl LayoutBuilder {
    /// The mathematical state this builder stands for.
    spec fn model(&self) -> LayoutState {
        LayoutState {
            lines: self.lines.deep_view(),
            occs: self.occs.deep_view(),
            pending: self.pending@,
            pending_src: self.pending_src as int,
            flowing: self.flowing,
        }
    }

    fn new() -> (r: Self)
        ensures
            r.model() == init_state(),
    {
        let r = LayoutBuilder {
            lines: Vec::new(),
            occs: Vec::new(),
            pending: Vec::new(),
            pending_src: 0,
            flowing: false,
        };
        proof {
            assert(r.model() =~~= init_state());
        }
        r
    }

    /// Closes the open inline row, if one is open.
    fn flush_row(&mut self)
        ensures
            final(self).model() == flush(old(self).model()),
    {
        if self.flowing {
            let mut t: Vec<u8> = Vec::new();
            core::mem::swap(&mut t, &mut self.pending);
            let src = self.pending_src;
            self.lines.push(Line { text: t, source: src });
            self.pending_src = 0;
            self.flowing = false;
            proof {
                assert(self.lines.deep_view() =~~= old(self).model().lines.push(
                    (old(self).pending@, old(self).pending_src as int),
                ));
                assert(self.model() =~~= flush(old(self).model()));
            }
        }
    }

    /// Emits one block element: its wrapped rows, indented, then one
    /// blank separator row.
    fn put_block(&mut self, rows: &Vec<Vec<u8>>, indent: usize, idx: usize)
        ensures
            final(self).model() == block_step(
                old(self).model(),
                rows.deep_view(),
                indent as int,
                idx as int,
            ),
    {
        self.flush_row();
        let ghost st1 = flush(old(self).model());
        let ghost rowf = |i: int, l: Seq<u8>| (spaces(indent as int) + l, idx as int);
        proof {
            assert(st1.lines + rows.deep_view().take(0).map(rowf) =~= st1.lines);
        }
        let mut k: usize = 0;
        while k < rows.len()
            invariant
                k <= rows@.len(),
                rows@.len() == rows.deep_view().len(),
                rowf == (|i: int, l: Seq<u8>| (spaces(indent as int) + l, idx as int)),
                self.model() == (LayoutState {
                    lines: st1.lines + rows.deep_view().take(k as int).map(rowf),
                    ..st1
                }),
            decreases rows@.len() - k,
        {
            let ghost pre = self.model();
            let mut t = repeat_byte(32u8, indent);
            extend_bytes(&mut t, rows[k].as_slice());
            proof {
                assert(t@ =~= spaces(indent as int) + rows.deep_view()[k as int]);
            }
            self.lines.push(Line { text: t, source: idx });
            proof {
                assert(self.lines.deep_view() =~~= pre.lines.push(
                    (spaces(indent as int) + rows.deep_view()[k as int], idx as int),
                ));
                assert(rows.deep_view().take(k as int + 1).map(rowf) =~= rows.deep_view().take(
                    k as int,
                ).map(rowf).push(rowf(k as int, rows.deep_view()[k as int])));
                assert(self.model() =~~= LayoutState {
                    lines: st1.lines + rows.deep_view().take(k as int + 1).map(rowf),
                    ..st1
                });
            }
            k = k + 1;
        }
        let ghost pre = self.model();
        self.lines.push(Line { text: Vec::new(), source: idx });
        proof {
            assert(rows.deep_view().take(rows@.len() as int) =~= rows.deep_view());
            assert(self.lines.deep_view() =~~= pre.lines.push((Seq::<u8>::empty(), idx as int)));
            assert(self.model() =~~= block_step(
                old(self).model(),
                rows.deep_view(),
                indent as int,
                idx as int,
            ));
        }
    }

    /// Emits one link element: flows its display text into the open
    /// inline row or opens a new one, and records the occurrence.
    fn put_link(&mut self, id: usize, text: &Vec<u8>, idx: usize, w: usize)
        ensures
            final(self).model() == link_step(old(self).model(), id, text@, idx as int, w as int),
    {
        if !self.flowing {
            let y = self.lines.len();
            self.occs.push(Occurrence { link_id: id, x: 0, y });
            self.pending = vstd::slice::slice_to_vec(text.as_slice());
            self.pending_src = idx;
            self.flowing = true;
            proof {
                assert(self.occs.deep_view() =~~= old(self).model().occs.push(
                    (id as int, 0int, old(self).model().lines.len() as int),
                ));
                assert(self.model() =~~= link_step(
                    old(self).model(),
                    id,
                    text@,
                    idx as int,
                    w as int,
                ));
            }
        } else if self.pending.len() < w && text.len() <= w - self.pending.len() - 1 {
            let x = self.pending.len() + 1;
            let y = self.lines.len();
            self.occs.push(Occurrence { link_id: id, x, y });
            self.pending.push(32u8);
            extend_bytes(&mut self.pending, text.as_slice());
            proof {
                assert(self.occs.deep_view() =~~= old(self).model().occs.push(
                    (id as int, old(self).pending@.len() + 1 as int, old(
                        self,
                    ).model().lines.len() as int),
                ));
                assert(self.pending@ =~= old(self).pending@.push(32u8) + text@);
                assert(self.model() =~~= link_step(
                    old(self).model(),
                    id,
                    text@,
                    idx as int,
                    w as int,
                ));
            }
        } else {
            proof {
                assert(!(old(self).pending@.len() + 1 + text@.len() <= w as int));
            }
            let mut t: Vec<u8> = Vec::new();
            core::mem::swap(&mut t, &mut self.pending);
            let src = self.pending_src;
            self.lines.push(Line { text: t, source: src });
            let y = self.lines.len();
            self.occs.push(Occurrence { link_id: id, x: 0, y });
            self.pending = vstd::slice::slice_to_vec(text.as_slice());
            self.pending_src = idx;
            proof {
                assert(self.lines.deep_view() =~~= old(self).model().lines.push(
                    (old(self).pending@, old(self).pending_src as int),
                ));
                assert(self.occs.deep_view() =~~= old(self).model().occs.push(
                    (id as int, 0int, old(self).model().lines.len() + 1 as int),
                ));
                assert(self.model() =~~= link_step(
                    old(self).model(),
                    id,
                    text@,
                    idx as int,
                    w as int,
                ));
            }
        }
    }
}

/// Lays the document out at the given viewport width. The result is
/// the same on every call with the same inputs: it equals the
/// mathematical layout of the element sequence. Its occurrences are
/// one per link element, in reading order.
pub fn layout(document: &Document, width: usize) -> (r: Layout)
    ensures
        r.lines.deep_view() == spec_layout(document.elements@, width as int).lines,
        r.link_occurrences.deep_view() == spec_layout(document.elements@, width as int).occs,
        r.link_occurrences@.len() == link_count(document.elements@),
        occs_reading_order(r.link_occurrences.deep_view()),
{
    let ghost elems = document.elements@;
    let ghost w = width as int;
    let mut b = LayoutBuilder::new();
    let mut i: usize = 0;
    while i < document.elements.len()
        invariant
            i <= elems.len(),
            elems == document.elements@,
            w == width as int,
            layout_from(elems, i as int, b.model(), w) == layout_from(elems, 0, init_state(), w),
        decreases elems.len() - i,
    {
        let ghost pre = b.model();
        let e = &document.elements[i];
        match e {
            ContentElement::Heading { level, words } => {
                let rows = wrap_words_exec(words, width);
                b.put_block(&rows, 0, i);
            },
            ContentElement::Paragraph { words } => {
                let rows = wrap_words_exec(words, width);
                b.put_block(&rows, 0, i);
            },
            ContentElement::ListItem { depth, words } => {
                let ind: usize = if *depth <= width / 2 {
                    2 * *depth
                } else {
                    width
                };
                proof {
                    assert(ind as int == list_indent(*depth as int, w));
                }
                let rows = wrap_words_exec(words, width - ind);
                b.put_block(&rows, ind, i);
            },
            ContentElement::Divider => {
                let mut rows: Vec<Vec<u8>> = Vec::new();
                rows.push(repeat_byte(45u8, width));
                proof {
                    assert(rows.deep_view() =~~= seq![dashes(w)]);
                }
                b.put_block(&rows, 0, i);
            },
            ContentElement::LinkSpan { link_id, target, text } => {
                b.put_link(*link_id, text, i, width);
            },
        }
        proof {
            assert(b.model() == elem_step(pre, elems[i as int], i as int, w));
        }
        i = i + 1;
    }
    b.flush_row();
    proof {
        lemma_layout_occurrences(elems, w);
        assert(b.occs.deep_view().len() == b.occs@.len());
    }
    Layout { lines: b.lines, link_occurrences: b.occs }
}

} // verus!
