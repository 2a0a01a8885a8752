//! Parser: turns raw markup bytes into a document. The dialect is
//! line-based ASCII text: a line of leading `#` marks a heading of
//! that level, a line starting with three dashes a divider, leading
//! `*` a list item of that depth, `[target|display]` (or `[target]`)
//! a link, and anything else a paragraph; blank lines separate
//! elements. Unknown or malformed constructs degrade to paragraph
//! text rather than failing the parse.

use vstd::prelude::*;

use crate::document::{
    lemma_link_count_push, lemma_link_ids_push, lemma_toc_wf_push_elem, lemma_toc_wf_push_entry,
    link_count, link_ids_in_order, toc_wf, ContentElement, Document, ElemV, TocEntry, TocV,
};

verus! {

/// Headings whose level is at most this populate the table of
/// contents; deeper headings stay out of it.
pub const TOC_MAX_LEVEL: usize = 6;

/// A parse failure: empty input, or input that cannot be tokenized
/// as ASCII text at all.
#[derive(Clone, Debug, PartialEq, Eq)]
pub enum ParseError {
    Empty,
    Malformed(String),
}

/// Blank bytes that separate words: space, tab, carriage return.
pub open spec fn is_space(b: u8) -> bool {
    b == 32 || b == 9 || b == 13
}

/// Every byte is ASCII.
pub open spec fn ascii_ok(raw: Seq<u8>) -> bool {
    forall|i: int| 0 <= i < raw.len() ==> raw[i] < 128
}

/// Splits at every newline, scanning from `i` with the current
/// segment starting at `start`; the final segment is always emitted,
/// so a trailing newline yields a last empty line.
pub open spec fn lines_rec(s: Seq<u8>, start: int, i: int, acc: Seq<Seq<u8>>) -> Seq<Seq<u8>>
    decreases s.len() - i,
{
    if i < 0 || start < 0 || start > i || i >= s.len() {
        acc.push(s.subrange(if 0 <= start <= s.len() { start } else { 0 }, s.len() as int))
    } else if s[i] == 10 {
        lines_rec(s, i + 1, i + 1, acc.push(s.subrange(start, i)))
    } else {
        lines_rec(s, start, i + 1, acc)
    }
}

/// The lines of the raw input, split at newlines.
pub open spec fn split_lines(s: Seq<u8>) -> Seq<Seq<u8>> {
    lines_rec(s, 0, 0, Seq::empty())
}

/// Splits at blank bytes, scanning from `i` with the current word
/// starting at `start`; empty words are dropped.
pub open spec fn words_rec(s: Seq<u8>, start: int, i: int, acc: Seq<Seq<u8>>) -> Seq<Seq<u8>>
    decreases s.len() - i,
{
    if i < 0 || start < 0 || start > i || i >= s.len() {
        if 0 <= start < s.len() {
            acc.push(s.subrange(start, s.len() as int))
        } else {
            acc
        }
    } else if is_space(s[i]) {
        words_rec(s, i + 1, i + 1, if start < i {
            acc.push(s.subrange(start, i))
        } else {
            acc
        })
    } else {
        words_rec(s, start, i + 1, acc)
    }
}

/// The words of one line, split at blanks.
pub open spec fn line_words(l: Seq<u8>) -> Seq<Seq<u8>> {
    words_rec(l, 0, 0, Seq::empty())
}

/// The index at which the run of byte `b` starting at `i` ends.
pub open spec fn leading(l: Seq<u8>, b: u8, i: int) -> int
    decreases l.len() - i,
{
    if i < 0 || i >= l.len() || l[i] != b {
        i
    } else {
        leading(l, b, i + 1)
    }
}

/// The first index at or after `i` holding byte `b`, or the length.
pub open spec fn find_byte(s: Seq<u8>, b: u8, i: int) -> int
    decreases s.len() - i,
{
    if i < 0 || i >= s.len() {
        s.len() as int
    } else if s[i] == b {
        i
    } else {
        find_byte(s, b, i + 1)
    }
}

/// What one source line stands for.
pub enum LineKind {
    Blank,
    Heading { level: int, words: Seq<Seq<u8>> },
    Divider,
    Item { depth: int, words: Seq<Seq<u8>> },
    LinkLine { target: Seq<u8>, text: Seq<u8> },
    Plain { words: Seq<Seq<u8>> },
}

/// Classifies one line by its leading bytes. A link line is
/// `[target|display]` or `[target]`; one with an empty target is
/// demoted to plain paragraph text, as is any line that fits no
/// construct.
pub open spec fn classify(l: Seq<u8>) -> LineKind {
    if line_words(l).len() == 0 {
        LineKind::Blank
    } else if l[0] == 35 {
        let n = leading(l, 35, 0);
        LineKind::Heading { level: n, words: line_words(l.skip(n)) }
    } else if l.len() >= 3 && l[0] == 45 && l[1] == 45 && l[2] == 45 {
        LineKind::Divider
    } else if l[0] == 42 {
        let n = leading(l, 42, 0);
        LineKind::Item { depth: n, words: line_words(l.skip(n)) }
    } else if l[0] == 91 {
        if l.len() >= 2 && l[l.len() - 1] == 93 {
            let inner = l.subrange(1, l.len() - 1);
            let p = find_byte(inner, 124, 0);
            let target = if p < inner.len() {
                inner.take(p)
            } else {
                inner
            };
            let text = if p < inner.len() {
                inner.skip(p + 1)
            } else {
                inner
            };
            if target.len() > 0 {
                LineKind::LinkLine { target, text }
            } else {
                LineKind::Plain { words: line_words(l) }
            }
        } else {
            LineKind::Plain { words: line_words(l) }
        }
    } else {
        LineKind::Plain { words: line_words(l) }
    }
}

/// Folds the lines from `i` on into the element and
/// table-of-contents sequences; `nlinks` counts the links seen, and
/// is the id the next link element receives.
pub open spec fn build_rec(
    lines: Seq<Seq<u8>>,
    i: int,
    elems: Seq<ElemV>,
    toc: Seq<TocV>,
    nlinks: int,
    toc_enabled: bool,
) -> (Seq<ElemV>, Seq<TocV>)
    decreases lines.len() - i,
{
    if i < 0 || i >= lines.len() {
        (elems, toc)
    } else {
        match classify(lines[i]) {
            LineKind::Blank => build_rec(lines, i + 1, elems, toc, nlinks, toc_enabled),
            LineKind::Heading { level, words } => build_rec(
                lines,
                i + 1,
                elems.push(ElemV::Heading { level, words }),
                if toc_enabled && level <= TOC_MAX_LEVEL {
                    toc.push(TocV { level, title: words, element_index: elems.len() as int })
                } else {
                    toc
                },
                nlinks,
                toc_enabled,
            ),
            LineKind::Divider => build_rec(
                lines,
                i + 1,
                elems.push(ElemV::Divider),
                toc,
                nlinks,
                toc_enabled,
            ),
            LineKind::Item { depth, words } => build_rec(
                lines,
                i + 1,
                elems.push(ElemV::ListItem { depth, words }),
                toc,
                nlinks,
                toc_enabled,
            ),
            LineKind::LinkLine { target, text } => build_rec(
                lines,
                i + 1,
                elems.push(ElemV::LinkSpan { link_id: nlinks, target, text }),
                toc,
                nlinks + 1,
                toc_enabled,
            ),
            LineKind::Plain { words } => build_rec(
                lines,
                i + 1,
                elems.push(ElemV::Paragraph { words }),
                toc,
                nlinks,
                toc_enabled,
            ),
        }
    }
}

/// The elements and table-of-contents entries of the raw input.
pub open spec fn spec_build(raw: Seq<u8>, toc_enabled: bool) -> (Seq<ElemV>, Seq<TocV>) {
    build_rec(split_lines(raw), 0, Seq::empty(), Seq::empty(), 0, toc_enabled)
}

/// Splits one line into its words at blank bytes.
fn split_words_exec(l: &[u8]) -> (r: Vec<Vec<u8>>)
    ensures
        r.deep_view() == line_words(l@),
{
    let mut acc: Vec<Vec<u8>> = Vec::new();
    let mut start: usize = 0;
    let mut i: usize = 0;
    proof {
        assert(acc.deep_view() =~= Seq::<Seq<u8>>::empty());
    }
    while i < l.len()
        invariant
            start <= i <= l@.len(),
            words_rec(l@, start as int, i as int, acc.deep_view()) == line_words(l@),
        decreases l@.len() - i,
    {
        let b = l[i];
        if b == 32 || b == 9 || b == 13 {
            if start < i {
                let ghost pre = acc.deep_view();
                acc.push(vstd::slice::slice_to_vec(vstd::slice::slice_subrange(l, start, i)));
                proof {
                    assert(acc.deep_view() =~~= pre.push(l@.subrange(start as int, i as int)));
                }
            }
            start = i + 1;
        }
        i = i + 1;
    }
    if start < l.len() {
        let ghost pre = acc.deep_view();
        acc.push(vstd::slice::slice_to_vec(vstd::slice::slice_subrange(l, start, l.len())));
        proof {
            assert(acc.deep_view() =~~= pre.push(l@.subrange(start as int, l@.len() as int)));
        }
    }
    acc
}

/// Length of the run of byte `b` at the start of `l`.
fn count_leading(l: &[u8], b: u8) -> (n: usize)
    ensures
        n as int == leading(l@, b, 0),
        n <= l@.len(),
{
    let mut n: usize = 0;
    while n < l.len() && l[n] == b
        invariant
            n <= l@.len(),
            leading(l@, b, 0) == leading(l@, b, n as int),
        decreases l@.len() - n,
    {
        n = n + 1;
    }
    n
}

/// Index of the first occurrence of byte `b`, or the length.
fn find_byte_exec(s: &[u8], b: u8) -> (p: usize)
    ensures
        p as int == find_byte(s@, b, 0),
        p <= s@.len(),
{
    let mut p: usize = 0;
    while p < s.len() && s[p] != b
        invariant
            p <= s@.len(),
            find_byte(s@, b, 0) == find_byte(s@, b, p as int),
        decreases s@.len() - p,
    {
        p = p + 1;
    }
    p
}

/// Parses raw markup bytes into a document. Zero-length input fails
/// with the empty-input error; input holding a non-ASCII byte cannot
/// be tokenized and fails with the malformed-input error; every
/// other input parses, its elements and table of contents exactly the
/// line-by-line build of the dialect, with link ids assigned in
/// first-seen order from 0. The table of contents is present exactly
/// when it was requested and some heading populates it.
pub fn parse(raw: &[u8], toc_enabled: bool) -> (r: Result<Document, ParseError>)
    ensures
        r is Ok <==> (raw@.len() > 0 && ascii_ok(raw@)),
        raw@.len() == 0 ==> (r matches Err(e) && e is Empty),
        raw@.len() > 0 && !ascii_ok(raw@) ==> (r matches Err(e) && e is Malformed),
        r matches Ok(d) ==> {
            &&& d.elements.deep_view() == spec_build(raw@, toc_enabled).0
            &&& d.wf()
            &&& (d.toc is Some <==> (toc_enabled && spec_build(raw@, toc_enabled).1.len() > 0))
            &&& (d.toc matches Some(t) ==> t.deep_view() == spec_build(raw@, toc_enabled).1)
        },
{
    if raw.len() == 0 {
        return Err(ParseError::Empty);
    }

    let mut i: usize = 0;
    while i < raw.len()
        invariant
            i <= raw@.len(),
            forall|j: int| 0 <= j < i ==> raw@[j] < 128,
        decreases raw@.len() - i,
    {
        if raw[i] >= 128 {
            proof {
                assert(!ascii_ok(raw@));
            }
            return Err(ParseError::Malformed("input is not ascii text".to_owned()));
        }
        i = i + 1;
    }
    proof {
        assert(ascii_ok(raw@));
    }

    let mut lines_v: Vec<Vec<u8>> = Vec::new();
    let mut start: usize = 0;
    let mut j: usize = 0;
    proof {
        assert(lines_v.deep_view() =~= Seq::<Seq<u8>>::empty());
    }
    while j < raw.len()
        invariant
            start <= j <= raw@.len(),
            lines_rec(raw@, start as int, j as int, lines_v.deep_view()) == split_lines(raw@),
        decreases raw@.len() - j,
    {
        if raw[j] == 10 {
            let ghost pre = lines_v.deep_view();
            lines_v.push(vstd::slice::slice_to_vec(vstd::slice::slice_subrange(raw, start, j)));
            proof {
                assert(lines_v.deep_view() =~~= pre.push(raw@.subrange(start as int, j as int)));
            }
            start = j + 1;
        }
        j = j + 1;
    }
    let ghost pre_l = lines_v.deep_view();
    lines_v.push(vstd::slice::slice_to_vec(vstd::slice::slice_subrange(raw, start, raw.len())));
    proof {
        assert(lines_v.deep_view() =~~= pre_l.push(raw@.subrange(start as int, raw@.len() as int)));
        assert(lines_v.deep_view() == split_lines(raw@));
    }

    let ghost linesd = lines_v.deep_view();
    let ghost target_pair = spec_build(raw@, toc_enabled);
    let mut elems: Vec<ContentElement> = Vec::new();
    let mut toc_entries: Vec<TocEntry> = Vec::new();
    let mut next_id: usize = 0;
    let mut li: usize = 0;
    proof {
        assert(elems.deep_view() =~= Seq::<ElemV>::empty());
        assert(toc_entries.deep_view() =~= Seq::<TocV>::empty());
    }
    while li < lines_v.len()
        invariant
            li <= lines_v@.len(),
            lines_v@.len() == linesd.len(),
            linesd == lines_v.deep_view(),
            build_rec(
                linesd,
                li as int,
                elems.deep_view(),
                toc_entries.deep_view(),
                next_id as int,
                toc_enabled,
            ) == target_pair,
            target_pair == spec_build(raw@, toc_enabled),
            next_id as int == link_count(elems@),
            next_id <= li,
            link_ids_in_order(elems@),
            toc_wf(toc_entries@, elems@),
            !toc_enabled ==> toc_entries@.len() == 0,
        decreases lines_v@.len() - li,
    {
        let ghost pre_elems = elems.deep_view();
        let ghost pre_toc = toc_entries.deep_view();
        let ghost pre_nid = next_id as int;
        proof {
            assert(linesd[li as int] =~~= lines_v@[li as int]@);
        }
        let l: &Vec<u8> = &lines_v[li];
        let ghost lv = l@;
        let words = split_words_exec(l.as_slice());
        if words.len() == 0 {
            proof {
                assert(line_words(lv).len() == 0);
                assert(classify(lv) is Blank);
                assert(build_rec(linesd, li as int, pre_elems, pre_toc, pre_nid, toc_enabled)
                    == build_rec(
                    linesd,
                    li as int + 1,
                    elems.deep_view(),
                    toc_entries.deep_view(),
                    next_id as int,
                    toc_enabled,
                ));
            }
        } else {
            proof {
                assert(line_words(lv).len() > 0);
                assert(lv.len() > 0) by {
                    if lv.len() == 0 {
                        assert(words_rec(lv, 0, 0, Seq::<Seq<u8>>::empty()).len() == 0);
                    }
                };
            }
            let b0 = l[0];
            if b0 == 35 {
                let n = count_leading(l.as_slice(), 35);
                let rest = vstd::slice::slice_subrange(l.as_slice(), n, l.len());
                let ws = split_words_exec(rest);
                proof {
                    assert(rest@ =~= lv.skip(n as int));
                    assert(classify(lv) == (LineKind::Heading {
                        level: n as int,
                        words: line_words(lv.skip(n as int)),
                    }));
                }
                let eidx = elems.len();
                let he = ContentElement::Heading { level: n, words: ws };
                proof {
                    lemma_link_count_push(elems@, he);
                    lemma_link_ids_push(elems@, he);
                    lemma_toc_wf_push_elem(toc_entries@, elems@, he);
                }
                elems.push(he);
                proof {
                    assert(elems.deep_view() =~~= pre_elems.push(ElemV::Heading {
                        level: n as int,
                        words: line_words(lv.skip(n as int)),
                    }));
                }
                if toc_enabled && n <= TOC_MAX_LEVEL {
                    let rest2 = vstd::slice::slice_subrange(l.as_slice(), n, l.len());
                    let title = split_words_exec(rest2);
                    let entry = TocEntry { level: n, title, element_index: eidx };
                    proof {
                        assert(rest2@ =~= lv.skip(n as int));
                        lemma_toc_wf_push_entry(toc_entries@, elems@, entry);
                    }
                    toc_entries.push(entry);
                    proof {
                        assert(toc_entries.deep_view() =~~= pre_toc.push(TocV {
                            level: n as int,
                            title: line_words(lv.skip(n as int)),
                            element_index: eidx as int,
                        }));
                    }
                }
                proof {
                    assert(build_rec(linesd, li as int, pre_elems, pre_toc, pre_nid, toc_enabled)
                        == build_rec(
                        linesd,
                        li as int + 1,
                        elems.deep_view(),
                        toc_entries.deep_view(),
                        next_id as int,
                        toc_enabled,
                    ));
                }
            } else if l.len() >= 3 && b0 == 45 && l[1] == 45 && l[2] == 45 {
                proof {
                    assert(classify(lv) is Divider);
                }
                let de = ContentElement::Divider;
                proof {
                    lemma_link_count_push(elems@, de);
                    lemma_link_ids_push(elems@, de);
                    lemma_toc_wf_push_elem(toc_entries@, elems@, de);
                }
                elems.push(de);
                proof {
                    assert(elems.deep_view() =~~= pre_elems.push(ElemV::Divider));
                    assert(build_rec(linesd, li as int, pre_elems, pre_toc, pre_nid, toc_enabled)
                        == build_rec(
                        linesd,
                        li as int + 1,
                        elems.deep_view(),
                        toc_entries.deep_view(),
                        next_id as int,
                        toc_enabled,
                    ));
                }
            } else if b0 == 42 {
                let n = count_leading(l.as_slice(), 42);
                let rest = vstd::slice::slice_subrange(l.as_slice(), n, l.len());
                let ws = split_words_exec(rest);
                proof {
                    assert(rest@ =~= lv.skip(n as int));
                    assert(classify(lv) == (LineKind::Item {
                        depth: n as int,
                        words: line_words(lv.skip(n as int)),
                    }));
                }
                let ie = ContentElement::ListItem { depth: n, words: ws };
                proof {
                    lemma_link_count_push(elems@, ie);
                    lemma_link_ids_push(elems@, ie);
                    lemma_toc_wf_push_elem(toc_entries@, elems@, ie);
                }
                elems.push(ie);
                proof {
                    assert(elems.deep_view() =~~= pre_elems.push(ElemV::ListItem {
                        depth: n as int,
                        words: line_words(lv.skip(n as int)),
                    }));
                    assert(build_rec(linesd, li as int, pre_elems, pre_toc, pre_nid, toc_enabled)
                        == build_rec(
                        linesd,
                        li as int + 1,
                        elems.deep_view(),
                        toc_entries.deep_view(),
                        next_id as int,
                        toc_enabled,
                    ));
                }
            } else {
                let mut linkish: bool = false;
                if b0 == 91 {
                    if l.len() >= 2 && l[l.len() - 1] == 93 {
                        let inner = vstd::slice::slice_subrange(l.as_slice(), 1, l.len() - 1);
                        let p = find_byte_exec(inner, 124);
                        proof {
                            assert(inner@ =~= lv.subrange(1, lv.len() - 1));
                        }
                        if p < inner.len() {
                            let tgt = vstd::slice::slice_to_vec(
                                vstd::slice::slice_subrange(inner, 0, p),
                            );
                            let txt = vstd::slice::slice_to_vec(
                                vstd::slice::slice_subrange(inner, p + 1, inner.len()),
                            );
                            proof {
                                assert(tgt@ =~= inner@.take(p as int));
                                assert(txt@ =~= inner@.skip(p as int + 1));
                            }
                            if tgt.len() > 0 {
                                linkish = true;
                                proof {
                                    assert(classify(lv) == (LineKind::LinkLine {
                                        target: tgt@,
                                        text: txt@,
                                    }));
                                }
                                let le = ContentElement::LinkSpan {
                                    link_id: next_id,
                                    target: tgt,
                                    text: txt,
                                };
                                proof {
                                    lemma_link_count_push(elems@, le);
                                    lemma_link_ids_push(elems@, le);
                                    lemma_toc_wf_push_elem(toc_entries@, elems@, le);
                                }
                                elems.push(le);
                                next_id = next_id + 1;
                                proof {
                                    assert(elems.deep_view()[pre_elems.len() as int]
                                        == elems@[pre_elems.len() as int].deep_view());
                                    assert(elems.deep_view() =~~= pre_elems.push(
                                        ElemV::LinkSpan {
                                            link_id: pre_nid,
                                            target: lv.subrange(1, lv.len() - 1).take(
                                                find_byte(lv.subrange(1, lv.len() - 1), 124, 0),
                                            ),
                                            text: lv.subrange(1, lv.len() - 1).skip(
                                                find_byte(lv.subrange(1, lv.len() - 1), 124, 0)
                                                    + 1,
                                            ),
                                        },
                                    ));
                                    assert(build_rec(
                                        linesd,
                                        li as int,
                                        pre_elems,
                                        pre_toc,
                                        pre_nid,
                                        toc_enabled,
                                    ) == build_rec(
                                        linesd,
                                        li as int + 1,
                                        elems.deep_view(),
                                        toc_entries.deep_view(),
                                        next_id as int,
                                        toc_enabled,
                                    ));
                                }
                            }
                        } else {
                            let tgt = vstd::slice::slice_to_vec(inner);
                            let txt = vstd::slice::slice_to_vec(inner);
                            proof {
                                assert(inner@.len() > 0 ==> tgt@.len() > 0);
                            }
                            if tgt.len() > 0 {
                                linkish = true;
                                proof {
                                    assert(classify(lv) == (LineKind::LinkLine {
                                        target: tgt@,
                                        text: txt@,
                                    }));
                                }
                                let le = ContentElement::LinkSpan {
                                    link_id: next_id,
                                    target: tgt,
                                    text: txt,
                                };
                                proof {
                                    lemma_link_count_push(elems@, le);
                                    lemma_link_ids_push(elems@, le);
                                    lemma_toc_wf_push_elem(toc_entries@, elems@, le);
                                }
                                elems.push(le);
                                next_id = next_id + 1;
                                proof {
                                    assert(elems.deep_view() =~~= pre_elems.push(
                                        ElemV::LinkSpan {
                                            link_id: pre_nid,
                                            target: lv.subrange(1, lv.len() - 1),
                                            text: lv.subrange(1, lv.len() - 1),
                                        },
                                    ));
                                    assert(build_rec(
                                        linesd,
                                        li as int,
                                        pre_elems,
                                        pre_toc,
                                        pre_nid,
                                        toc_enabled,
                                    ) == build_rec(
                                        linesd,
                                        li as int + 1,
                                        elems.deep_view(),
                                        toc_entries.deep_view(),
                                        next_id as int,
                                        toc_enabled,
                                    ));
                                }
                            }
                        }
                    }
                }
                if !linkish {
                    proof {
                        assert(classify(lv) == (LineKind::Plain { words: line_words(lv) }));
                    }
                    let pe = ContentElement::Paragraph { words };
                    proof {
                        lemma_link_count_push(elems@, pe);
                        lemma_link_ids_push(elems@, pe);
                        lemma_toc_wf_push_elem(toc_entries@, elems@, pe);
                    }
                    elems.push(pe);
                    proof {
                        assert(elems.deep_view() =~~= pre_elems.push(ElemV::Paragraph {
                            words: line_words(lv),
                        }));
                        assert(build_rec(
                            linesd,
                            li as int,
                            pre_elems,
                            pre_toc,
                            pre_nid,
                            toc_enabled,
                        ) == build_rec(
                            linesd,
                            li as int + 1,
                            elems.deep_view(),
                            toc_entries.deep_view(),
                            next_id as int,
                            toc_enabled,
                        ));
                    }
                }
            }
        }
        li = li + 1;
    }
    proof {
        assert(elems.deep_view() == target_pair.0);
        assert(toc_entries.deep_view() == target_pair.1);
        assert(toc_entries@.len() == toc_entries.deep_view().len());
    }

    if toc_enabled && toc_entries.len() > 0 {
        Ok(Document { elements: elems, toc: Some(toc_entries) })
    } else {
        Ok(Document { elements: elems, toc: None })
    }
}

} // verus!
