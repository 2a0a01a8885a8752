//! Input routing: maps a pressed key to a navigation action under the
//! configured keybindings, in the order the bindings are consulted.

use vstd::prelude::*;

verus! {

/// The configured key for each action, as a plain key code.
#[derive(Clone, Copy, Debug, PartialEq, Eq, Structural)]
pub struct Keybindings {
    pub up: u32,
    pub down: u32,
    pub left: u32,
    pub right: u32,
    pub focus_next: u32,
    pub focus_prev: u32,
}

/// What a key press asks for.
#[derive(Clone, Copy, Debug, PartialEq, Eq, Structural)]
pub enum KeyAction {
    MoveUp,
    MoveDown,
    MoveLeft,
    MoveRight,
    FocusNext,
    FocusPrev,
    Unhandled,
}

/// The action a key routes to: movement bindings are consulted first,
/// then focus bindings; any other key is left to the host.
pub open spec fn route_spec(kb: Keybindings, key: u32) -> KeyAction {
    if key == kb.up {
        KeyAction::MoveUp
    } else if key == kb.down {
        KeyAction::MoveDown
    } else if key == kb.left {
        KeyAction::MoveLeft
    } else if key == kb.right {
        KeyAction::MoveRight
    } else if key == kb.focus_next {
        KeyAction::FocusNext
    } else if key == kb.focus_prev {
        KeyAction::FocusPrev
    } else {
        KeyAction::Unhandled
    }
}

/// Routes one key press under the given bindings.
pub fn route_key(kb: &Keybindings, key: u32) -> (r: KeyAction)
    ensures
        r == route_spec(*kb, key),
{
    if key == kb.up {
        KeyAction::MoveUp
    } else if key == kb.down {
        KeyAction::MoveDown
    } else if key == kb.left {
        KeyAction::MoveLeft
    } else if key == kb.right {
        KeyAction::MoveRight
    } else if key == kb.focus_next {
        KeyAction::FocusNext
    } else if key == kb.focus_prev {
        KeyAction::FocusPrev
    } else {
        KeyAction::Unhandled
    }
}

/// Where the article panel sits among the root layout's children: the
/// table of contents on the left pushes the article to slot 1.
#[derive(Clone, Copy, Debug, PartialEq, Eq, Structural)]
pub enum TocPosition {
    Left,
    Right,
}

/// The child slot at which the article view is inserted.
pub fn article_slot(position: TocPosition) -> (r: usize)
    ensures
        r == (match position {
            TocPosition::Left => 1usize,
            TocPosition::Right => 0usize,
        }),
{
    match position {
        TocPosition::Left => 1,
        TocPosition::Right => 0,
    }
}

/// The bytes of a link target as shown to a reader: a leading
/// `/wiki/` prefix is dropped and underscores become spaces.
pub open spec fn human_target_spec(t: Seq<u8>) -> Seq<u8> {
    strip_wiki_prefix(t).map(
        |i: int, b: u8|
            if b == 95 {
                32u8
            } else {
                b
            },
    )
}

/// The target without a leading `/wiki/`.
pub open spec fn strip_wiki_prefix(t: Seq<u8>) -> Seq<u8> {
    if t.len() >= 6 && t.take(6) == wiki_prefix() {
        t.skip(6)
    } else {
        t
    }
}

/// The bytes of `/wiki/`.
pub open spec fn wiki_prefix() -> Seq<u8> {
    seq![47u8, 119u8, 105u8, 107u8, 105u8, 47u8]
}

/// Converts a link target into a human-friendly form: drops a leading
/// `/wiki/` and replaces underscores with spaces.
pub fn human_target(target: &[u8]) -> (r: Vec<u8>)
    ensures
        r@ == human_target_spec(target@),
{
    let has_prefix = target.len() >= 6 && target[0] == 47 && target[1] == 119 && target[2] == 105
        && target[3] == 107 && target[4] == 105 && target[5] == 47;
    proof {
        if has_prefix {
            assert(target@.take(6) =~= wiki_prefix());
        } else if target@.len() >= 6 && target@.take(6) == wiki_prefix() {
            assert(target@[0] == 47 && target@[1] == 119 && target@[2] == 105 && target@[3] == 107
                && target@[4] == 105 && target@[5] == 47) by {
                assert(target@.take(6)[0] == target@[0]);
                assert(target@.take(6)[1] == target@[1]);
                assert(target@.take(6)[2] == target@[2]);
                assert(target@.take(6)[3] == target@[3]);
                assert(target@.take(6)[4] == target@[4]);
                assert(target@.take(6)[5] == target@[5]);
            }
        }
    }
    let start: usize = if has_prefix {
        6
    } else {
        0
    };
    let mut r: Vec<u8> = Vec::new();
    let mut i: usize = start;
    while i < target.len()
        invariant
            start <= i <= target@.len(),
            start == if has_prefix {
                6int
            } else {
                0int
            },
            has_prefix ==> target@.len() >= 6,
            r@.len() == i - start,
            forall|j: int|
                0 <= j < r@.len() ==> #[trigger] r@[j] == (if target@[start + j] == 95 {
                    32u8
                } else {
                    target@[start + j]
                }),
        decreases target@.len() - i,
    {
        let b = target[i];
        if b == 95 {
            r.push(32u8);
        } else {
            r.push(b);
        }
        i = i + 1;
    }
    proof {
        assert(r@ =~= human_target_spec(target@));
    }
    r
}

} // verus!
