use vstd::prelude::*;

use crate::text::chars_of;

verus! {

/// The message a tray icon receives when the left button is released over it.
pub const WM_LBUTTONUP: u32 = 0x0202;

/// The message a tray icon receives on a left double click.
pub const WM_LBUTTONDBLCLK: u32 = 0x0203;

/// The identifier of the first tray menu command.
pub const MENU_COMMAND_BASE: u32 = 1;

/// A single left click, not a double click, activates the tray icon.
pub fn is_activation_message(message: u32) -> (r: bool)
    ensures
        r == (message == WM_LBUTTONUP),
{
    message == WM_LBUTTONUP
}

/// The UTF-16 code units of one character.
pub open spec fn utf16_of_char(c: char) -> Seq<u16> {
    let v = c as int;
    if v < 0x10000 {
        seq![v as u16]
    } else {
        let w = v - 0x10000;
        seq![(0xD800 + w / 0x400) as u16, (0xDC00 + w % 0x400) as u16]
    }
}

/// The UTF-16 code units of a string.
pub open spec fn utf16_of(s: Seq<char>) -> Seq<u16>
    decreases s.len(),
{
    if s.len() == 0 {
        Seq::empty()
    } else {
        utf16_of(s.drop_last()) + utf16_of_char(s.last())
    }
}

/// Appends the UTF-16 code units of `c`.
fn push_utf16(units: &mut Vec<u16>, c: char)
    ensures
        final(units)@ == old(units)@ + utf16_of_char(c),
{
    let v = c as u32;
    if v < 0x10000 {
        units.push(v as u16);
        assert(units@ =~= old(units)@ + utf16_of_char(c));
    } else {
        assert(v <= 0x10FFFF) by {
            assert(c as int <= 0x10FFFF);
        }
        let w = v - 0x10000;
        units.push((0xD800 + w / 0x400) as u16);
        units.push((0xDC00 + w % 0x400) as u16);
        assert(units@ =~= old(units)@ + utf16_of_char(c));
    }
}

/// The UTF-16 code units of a string.
pub fn encode_utf16(value: &str) -> (r: Vec<u16>)
    ensures
        r@ == utf16_of(value@),
{
    let cs = chars_of(value);
    let mut units: Vec<u16> = Vec::new();
    let mut i: usize = 0;
    while i < cs.len()
        invariant
            i <= cs@.len(),
            cs@ == value@,
            units@ == utf16_of(cs@.take(i as int)),
        decreases cs@.len() - i,
    {
        push_utf16(&mut units, cs[i]);
        assert(cs@.take(i + 1).drop_last() =~= cs@.take(i as int));
        i = i + 1;
    }
    assert(cs@.take(i as int) =~= cs@);
    units
}

/// The UTF-16 code units of a string followed by a terminating zero, as Win32 expects.
pub fn wide(value: &str) -> (r: Vec<u16>)
    ensures
        r@ == utf16_of(value@).push(0u16),
{
    let mut units = encode_utf16(value);
    units.push(0);
    units
}

/// What a fixed-size Win32 text field holds after `value` is copied into it: as many
/// code units as fit before a terminating zero, then zeros.
pub open spec fn copied_wide(len: int, value: Seq<char>) -> Seq<u16> {
    let units = utf16_of(value);
    Seq::new(
        len as nat,
        |i: int|
            if i < units.len() && i < len - 1 {
                units[i]
            } else {
                0u16
            },
    )
}

/// Copies `value` into a fixed-size buffer, truncated so that a terminating zero
/// always fits, and clears the rest.
pub fn copy_wide(buffer: &mut [u16], value: &str)
    ensures
        final(buffer)@ == copied_wide(old(buffer)@.len() as int, value@),
{
    let units = encode_utf16(value);
    let len = buffer.len();
    let limit: usize = if len == 0 {
        0
    } else {
        len - 1
    };
    let mut i: usize = 0;
    while i < len
        invariant
            i <= len,
            len == old(buffer)@.len(),
            buffer@.len() == len,
            units@ == utf16_of(value@),
            limit == if len == 0 {
                0
            } else {
                len - 1
            },
            forall|j: int|
                0 <= j < i ==> buffer@[j] == copied_wide(len as int, value@)[j],
        decreases len - i,
    {
        if i < units.len() && i < limit {
            buffer[i] = units[i];
        } else {
            buffer[i] = 0;
        }
        i = i + 1;
    }
    assert(buffer@ =~= copied_wide(len as int, value@));
}

/// The actions of a native tray menu, by command identifier.
pub struct TrayMenuActions<A> {
    actions: Vec<(u32, A)>,
}

impl<A> TrayMenuActions<A> {
    pub closed spec fn spec_actions(self) -> Seq<(u32, A)> {
        self.actions@
    }

    /// The identifier the next item gets.
    pub open spec fn next_id(self) -> int {
        MENU_COMMAND_BASE + self.spec_actions().len()
    }

    /// The action of the item with `id`, if one was added.
    pub open spec fn action_of(self, id: u32) -> Option<A> {
        if MENU_COMMAND_BASE <= id < self.next_id() {
            Some(self.spec_actions()[id - MENU_COMMAND_BASE].1)
        } else {
            None
        }
    }

    #[verifier::type_invariant]
    closed spec fn ids_in_order(self) -> bool {
        &&& self.actions@.len() < u32::MAX
        &&& forall|i: int|
            0 <= i < self.actions@.len() ==> (#[trigger] self.actions@[i]).0 == MENU_COMMAND_BASE + i
    }

    pub fn new() -> (r: TrayMenuActions<A>)
        ensures
            r.spec_actions().len() == 0,
    {
        TrayMenuActions { actions: Vec::new() }
    }

    /// Adds an item and returns its command identifier.
    pub fn push(&mut self, action: A) -> (r: u32)
        requires
            old(self).next_id() < u32::MAX,
        ensures
            r == old(self).next_id(),
            final(self).spec_actions() == old(self).spec_actions().push((r, action)),
    {
        proof {
            use_type_invariant(&*self);
        }
        let id = MENU_COMMAND_BASE + self.actions.len() as u32;
        let mut actions = Vec::new();
        std::mem::swap(&mut actions, &mut self.actions);
        actions.push((id, action));
        self.actions = actions;
        id
    }
}

impl<A: Copy> TrayMenuActions<A> {
    /// The action of the command `id`, if the menu has one.
    pub fn action(&self, id: u32) -> (r: Option<A>)
        ensures
            r == self.action_of(id),
    {
        proof {
            use_type_invariant(self);
        }
        let mut i: usize = 0;
        while i < self.actions.len()
            invariant
                i <= self.actions@.len(),
                forall|j: int| 0 <= j < self.actions@.len() ==> (#[trigger] self.actions@[j]).0 == MENU_COMMAND_BASE + j,
                forall|j: int| 0 <= j < i ==> self.actions@[j].0 != id,
            decreases self.actions@.len() - i,
        {
            if self.actions[i].0 == id {
                return Some(self.actions[i].1);
            }
            i = i + 1;
        }
        None
    }
}

/// An added menu item is found again by the identifier it was given.
pub proof fn law_menu_action_round_trip<A>(menu: TrayMenuActions<A>, action: A, next: TrayMenuActions<A>, id: u32)
    requires
        id == menu.next_id(),
        next.spec_actions() == menu.spec_actions().push((id, action)),
    ensures
        next.action_of(id) == Some(action),
{
}

} // verus!
