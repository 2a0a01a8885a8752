//! Link navigation index: directional selection over the link
//! occurrences of one layout, stored in reading order.

use vstd::prelude::*;

verus! {

/// One registered link occurrence: a link id together with the screen
/// position (column `x`, row `y`) of its first rendered character.
#[derive(Clone, Copy, PartialEq, Eq, Structural, Debug)]
pub struct Link {
    pub id: usize,
    pub x: usize,
    pub y: usize,
}

/// Reading order on occurrences: top to bottom, then left to right.
pub open spec fn reading_le(a: Link, b: Link) -> bool {
    a.y < b.y || (a.y == b.y && a.x <= b.x)
}

/// The occurrences stand in reading order.
pub open spec fn sorted_reading(s: Seq<Link>) -> bool {
    forall|i: int, j: int| 0 <= i < j < s.len() ==> reading_le(s[i], s[j])
}

/// `a - b`, floored at zero.
pub open spec fn sat_sub(a: int, b: int) -> int {
    if a >= b {
        a - b
    } else {
        0
    }
}

/// `a + b`, capped at the largest `usize` value.
pub open spec fn sat_add(a: int, b: int) -> int {
    if a + b <= usize::MAX as int {
        a + b
    } else {
        usize::MAX as int
    }
}

/// Index selected by an upward move: the scan walks the occurrences
/// strictly before `cur` from nearest to farthest and stops at the
/// first one whose row is at or above `min_y`; if none qualifies it
/// falls back to the topmost occurrence, index 0.
pub open spec fn up_scan(s: Seq<Link>, cur: int, min_y: int) -> int
    decreases cur,
{
    if cur <= 0 {
        0
    } else if s[cur - 1].y <= min_y {
        cur - 1
    } else {
        up_scan(s, cur - 1, min_y)
    }
}

/// Index selected by a downward move: the scan walks the occurrences
/// from `i` onward in reading order and stops at the first one whose
/// row is at or below `min_y` on screen (that is, `y >= min_y`); if
/// none qualifies it falls back to the bottommost occurrence.
pub open spec fn down_scan(s: Seq<Link>, i: int, min_y: int) -> int
    decreases s.len() - i,
{
    if i >= s.len() {
        s.len() - 1
    } else if s[i].y >= min_y {
        i
    } else {
        down_scan(s, i + 1, min_y)
    }
}

/// Index selected by `move_up(amount)` from `cur`.
pub open spec fn up_result(s: Seq<Link>, cur: int, amount: int) -> int {
    up_scan(s, cur, sat_sub(s[cur].y as int, amount))
}

/// Index selected by `move_down(amount)` from `cur`.
pub open spec fn down_result(s: Seq<Link>, cur: int, amount: int) -> int {
    down_scan(s, cur, sat_add(s[cur].y as int, amount))
}

/// Index selected by `move_left(amount)` from `cur`.
pub open spec fn left_result(cur: int, amount: int) -> int {
    sat_sub(cur, amount)
}

/// Index selected by `move_right(amount)` from `cur` among `len` links.
pub open spec fn right_result(len: int, cur: int, amount: int) -> int {
    if cur + amount >= len {
        len - 1
    } else {
        cur + amount
    }
}

/// Index of the first occurrence with the given id at or after `i`,
/// falling back to 0 when the id is not registered.
pub open spec fn find_link(s: Seq<Link>, id: usize, i: int) -> int
    decreases s.len() - i,
{
    if i >= s.len() {
        0
    } else if s[i].id == id {
        i
    } else {
        find_link(s, id, i + 1)
    }
}

/// An upward scan stops at an index at or before its start, never
/// skips a qualifying occurrence, and falls back to the topmost
/// occurrence only when no preceding occurrence qualifies.
proof fn lemma_up_scan_props(s: Seq<Link>, cur: int, min_y: int)
    requires
        0 <= cur < s.len(),
    ensures
        0 <= up_scan(s, cur, min_y) <= cur,
        cur > 0 ==> up_scan(s, cur, min_y) < cur,
        forall|k: int| up_scan(s, cur, min_y) < k < cur ==> s[k].y > min_y,
        up_scan(s, cur, min_y) < cur && s[up_scan(s, cur, min_y)].y > min_y ==> up_scan(
            s,
            cur,
            min_y,
        ) == 0,
    decreases cur,
{
    if cur <= 0 {
    } else if s[cur - 1].y <= min_y {
    } else {
        lemma_up_scan_props(s, cur - 1, min_y);
    }
}

/// A downward scan that has a qualifying occurrence at or after its
/// start stops at the first one, never later than any witness.
proof fn lemma_down_scan_hits(s: Seq<Link>, i: int, min_y: int, t: int)
    requires
        0 <= i <= t < s.len(),
        s[t].y >= min_y,
    ensures
        i <= down_scan(s, i, min_y) <= t,
        s[down_scan(s, i, min_y)].y >= min_y,
        forall|k: int| i <= k < down_scan(s, i, min_y) ==> s[k].y < min_y,
    decreases s.len() - i,
{
    if s[i].y >= min_y {
    } else {
        lemma_down_scan_hits(s, i + 1, min_y, t);
    }
}

/// Moving up by an amount and then down by the same amount, from a
/// selection that is neither the topmost nor the bottommost link,
/// returns to a link on the original screen row (not necessarily the
/// original link when several links share that row), provided some
/// link before the selection lies exactly `amount` rows higher; when
/// every preceding link overshoots the target row, the upward move
/// falls back farther up and the pair of moves can land on a lower row.
pub proof fn lemma_up_then_down_same_row(s: Seq<Link>, cur: int, amount: int)
    requires
        sorted_reading(s),
        0 < cur < s.len() - 1,
        0 <= amount,
        exists|j: int| 0 <= j < cur && s[j].y == s[cur].y - amount,
    ensures
        ({
            let u = up_result(s, cur, amount);
            let d = down_result(s, u, amount);
            &&& 0 <= u < s.len()
            &&& 0 <= d < s.len()
            &&& s[d].y == s[cur].y
        }),
{
    let j = choose|j: int| 0 <= j < cur && s[j].y == s[cur].y - amount;
    let min_y = sat_sub(s[cur].y as int, amount as int);
    assert(min_y == s[cur].y - amount);
    let u = up_scan(s, cur, min_y);
    lemma_up_scan_props(s, cur, min_y);
    assert(s[u].y <= min_y);
    assert(u >= j) by {
        if u < j {
            assert(s[j].y > min_y);
        }
    }
    assert(reading_le(s[j], s[u]) || j == u);
    assert(s[u].y == min_y);
    let min_y2 = sat_add(s[u].y as int, amount as int);
    assert(min_y2 == s[cur].y);
    lemma_down_scan_hits(s, u, min_y2, cur);
    let d = down_scan(s, u, min_y2);
    assert(reading_le(s[d], s[cur]) || d == cur);
    assert(s[d].y == s[cur].y);
}

/// Leftward moves compose: moving left by `a` and then by `b` selects
/// the same index as one move left by `a + b`.
pub proof fn lemma_move_left_composes(cur: int, a: int, b: int)
    requires
        0 <= cur,
        0 <= a,
        0 <= b,
    ensures
        left_result(left_result(cur, a), b) == left_result(cur, a + b),
{
}

/// Rightward moves compose: moving right by `a` and then by `b` ends
/// at the same index as one move right by `a + b`, clamped to the
/// last valid index.
pub proof fn lemma_move_right_composes(len: int, cur: int, a: int, b: int)
    requires
        0 < len,
        0 <= cur < len,
        0 <= a,
        0 <= b,
    ensures
        right_result(len, right_result(len, cur, a), b) == right_result(len, cur, a + b),
{
}

/// Moving up from the topmost link selects the topmost link, so
/// repeating the move is a no-op.
pub proof fn lemma_move_up_topmost(s: Seq<Link>, amount: int)
    requires
        s.len() > 0,
    ensures
        up_result(s, 0, amount) == 0,
{
}

/// Moving down from the bottommost link selects the bottommost link,
/// so repeating the move is a no-op.
pub proof fn lemma_move_down_bottommost(s: Seq<Link>, amount: int)
    requires
        s.len() > 0,
        0 <= amount,
    ensures
        down_result(s, s.len() - 1, amount) == s.len() - 1,
{
    let min_y = sat_add(s[s.len() - 1].y as int, amount);
    if s[s.len() - 1].y >= min_y {
    } else {
        assert(down_scan(s, s.len() as int, min_y) == s.len() - 1);
    }
}

/// The navigation index over one layout's link occurrences. Selection
/// moves never panic and never leave the current index out of bounds.
pub struct LinkHandler {
    links: Vec<Link>,
    current_link: usize,
}

impl LinkHandler {
    /// The registered occurrences, in the order they were pushed.
    pub closed spec fn occurrences(&self) -> Seq<Link> {
        self.links@
    }

    /// The index of the currently selected occurrence.
    pub closed spec fn current(&self) -> int {
        self.current_link as int
    }

    /// Well-formedness: occurrences stand in reading order and the
    /// selection is a valid index whenever any occurrence exists.
    pub open spec fn wf(&self) -> bool {
        &&& sorted_reading(self.occurrences())
        &&& self.occurrences().len() == 0 ==> self.current() == 0
        &&& self.occurrences().len() > 0 ==> 0 <= self.current() < self.occurrences().len()
    }

    /// Creates an empty navigation index.
    pub fn new() -> (r: Self)
        ensures
            r.occurrences() == Seq::<Link>::empty(),
            r.current() == 0,
            r.wf(),
    {
        Self { links: Vec::new(), current_link: 0 }
    }

    /// Returns the total number of registered links.
    pub fn registered_links(&self) -> (r: usize)
        ensures
            r == self.occurrences().len(),
    {
        self.links.len()
    }

    /// Adds a new link with the given id and position. Links must be
    /// added in reading order, left to right and top to bottom, for
    /// directional selection to work; the selection is unchanged.
    pub fn push_link(&mut self, id: usize, x: usize, y: usize)
        requires
            old(self).wf(),
            forall|i: int|
                0 <= i < old(self).occurrences().len() ==> reading_le(
                    old(self).occurrences()[i],
                    Link { id, x, y },
                ),
        ensures
            final(self).occurrences() == old(self).occurrences().push(Link { id, x, y }),
            final(self).current() == old(self).current(),
            final(self).wf(),
    {
        self.links.push(Link { id, x, y });
    }

    /// Retrieves the id of the currently selected link, or `None`
    /// when no links are registered.
    pub fn get_current_link(&self) -> (r: Option<usize>)
        requires
            self.wf(),
        ensures
            r == if self.occurrences().len() == 0 {
                Option::<usize>::None
            } else {
                Option::Some(self.occurrences()[self.current()].id)
            },
    {
        if self.links.is_empty() {
            return None;
        }
        Some(self.links[self.current_link].id)
    }

    /// Returns the `(x, y)` position of the currently selected link,
    /// or `None` when no links are registered.
    pub fn get_current_link_pos(&self) -> (r: Option<(usize, usize)>)
        requires
            self.wf(),
        ensures
            r == if self.occurrences().len() == 0 {
                Option::<(usize, usize)>::None
            } else {
                Option::Some(
                    (
                        self.occurrences()[self.current()].x,
                        self.occurrences()[self.current()].y,
                    ),
                )
            },
    {
        if self.links.is_empty() {
            return None;
        }
        let link = &self.links[self.current_link];
        Some((link.x, link.y))
    }

    /// Moves the selection to the nearest preceding link that lies at
    /// least `amount` rows above the current one, falling back to the
    /// topmost link; a no-op when no links are registered.
    pub fn move_up(&mut self, amount: usize)
        requires
            old(self).wf(),
        ensures
            final(self).occurrences() == old(self).occurrences(),
            final(self).wf(),
            old(self).occurrences().len() == 0 ==> final(self).current() == 0,
            old(self).occurrences().len() > 0 ==> final(self).current() == up_result(
                old(self).occurrences(),
                old(self).current(),
                amount as int,
            ),
    {
        if self.links.is_empty() {
            return;
        }

        let min_y = self.links[self.current_link].y.saturating_sub(amount);

        let mut i: usize = self.current_link;
        while i > 0
            invariant
                self.links@ == old(self).links@,
                self.current_link == old(self).current_link,
                sorted_reading(self.links@),
                i <= self.current_link < self.links@.len(),
                min_y == sat_sub(self.links@[self.current_link as int].y as int, amount as int),
                up_scan(self.links@, self.current_link as int, min_y as int) == up_scan(
                    self.links@,
                    i as int,
                    min_y as int,
                ),
            decreases i,
        {
            if self.links[i - 1].y <= min_y {
                self.current_link = i - 1;
                return;
            }
            i = i - 1;
        }

        self.current_link = 0;
    }

    /// Moves the selection to the first following link that lies at
    /// least `amount` rows below the current one, falling back to the
    /// bottommost link; a no-op when no links are registered.
    pub fn move_down(&mut self, amount: usize)
        requires
            old(self).wf(),
        ensures
            final(self).occurrences() == old(self).occurrences(),
            final(self).wf(),
            old(self).occurrences().len() == 0 ==> final(self).current() == 0,
            old(self).occurrences().len() > 0 ==> final(self).current() == down_result(
                old(self).occurrences(),
                old(self).current(),
                amount as int,
            ),
    {
        if self.links.is_empty() {
            return;
        }

        let min_y = self.links[self.current_link].y.saturating_add(amount);

        let mut i: usize = self.current_link;
        while i < self.links.len()
            invariant
                self.links@ == old(self).links@,
                self.current_link == old(self).current_link,
                sorted_reading(self.links@),
                self.current_link <= i,
                self.current_link < self.links@.len(),
                min_y == sat_add(self.links@[self.current_link as int].y as int, amount as int),
                down_scan(self.links@, self.current_link as int, min_y as int) == down_scan(
                    self.links@,
                    i as int,
                    min_y as int,
                ),
            decreases self.links@.len() - i,
        {
            if self.links[i].y >= min_y {
                self.current_link = i;
                return;
            }
            i = i + 1;
        }

        self.current_link = self.links.len() - 1;
    }

    /// Moves the selection `amount` links backward in reading order,
    /// stopping at the first link; a no-op when no links are registered.
    pub fn move_left(&mut self, amount: usize)
        requires
            old(self).wf(),
        ensures
            final(self).occurrences() == old(self).occurrences(),
            final(self).wf(),
            old(self).occurrences().len() == 0 ==> final(self).current() == 0,
            old(self).occurrences().len() > 0 ==> final(self).current() == left_result(
                old(self).current(),
                amount as int,
            ),
    {
        if self.links.is_empty() {
            return;
        }

        self.current_link = self.current_link.saturating_sub(amount);
    }

    /// Moves the selection `amount` links forward in reading order,
    /// stopping at the last link; a no-op when no links are registered.
    pub fn move_right(&mut self, amount: usize)
        requires
            old(self).wf(),
        ensures
            final(self).occurrences() == old(self).occurrences(),
            final(self).wf(),
            old(self).occurrences().len() == 0 ==> final(self).current() == 0,
            old(self).occurrences().len() > 0 ==> final(self).current() == right_result(
                old(self).occurrences().len() as int,
                old(self).current(),
                amount as int,
            ),
    {
        if self.links.is_empty() {
            return;
        }

        if amount >= self.links.len() - self.current_link {
            self.current_link = self.links.len() - 1;
            return;
        }

        self.current_link = self.current_link + amount;
    }

    /// Overrides the selection with the first link carrying the given
    /// id, falling back to the topmost link when the id is not
    /// registered; a no-op when no links are registered.
    pub fn set_current_link(&mut self, id: usize)
        requires
            old(self).wf(),
        ensures
            final(self).occurrences() == old(self).occurrences(),
            final(self).wf(),
            old(self).occurrences().len() == 0 ==> final(self).current() == 0,
            old(self).occurrences().len() > 0 ==> final(self).current() == find_link(
                old(self).occurrences(),
                id,
                0,
            ),
    {
        if self.links.is_empty() {
            return;
        }

        let mut i: usize = 0;
        while i < self.links.len()
            invariant
                self.links@ == old(self).links@,
                self.current_link == old(self).current_link,
                sorted_reading(self.links@),
                i <= self.links@.len(),
                self.links@.len() > 0,
                find_link(self.links@, id, 0) == find_link(self.links@, id, i as int),
            decreases self.links@.len() - i,
        {
            if self.links[i].id == id {
                self.current_link = i;
                return;
            }
            i = i + 1;
        }

        self.current_link = 0;
    }
}

} // verus!
