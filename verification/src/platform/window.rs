use vstd::prelude::*;

use crate::geometry::PhysicalRect;

verus! {

/// The identifier of an application window.
#[derive(Debug, PartialEq, Eq)]
pub struct WindowId(pub String);

impl WindowId {
    pub fn new(id: &str) -> (r: WindowId)
        ensures
            r.0@ == id@,
    {
        WindowId(id.to_owned())
    }

    pub fn duplicate(&self) -> (r: WindowId)
        ensures
            r.0@ == self.0@,
    {
        WindowId(self.0.clone())
    }
}

/// The window options that decide ownership: the window's identifier and the window
/// that owns it, if any.
#[derive(Debug)]
pub struct WindowOptions {
    pub id: WindowId,
    pub owner: Option<WindowId>,
}

pub open spec fn owner_view(owner: Option<WindowId>) -> Option<Seq<char>> {
    match owner {
        Some(o) => Some(o.0@),
        None => None,
    }
}

impl WindowOptions {
    /// Options for the window `id`, without an owner.
    pub fn new(id: &str) -> (r: WindowOptions)
        ensures
            r.id.0@ == id@,
            r.owner is None,
    {
        WindowOptions { id: WindowId::new(id), owner: None }
    }

    /// These options with `owner` as the owning window.
    pub fn owner(self, owner: &str) -> (r: WindowOptions)
        ensures
            r.id.0@ == self.id.0@,
            owner_view(r.owner) == Some(owner@),
    {
        WindowOptions { id: self.id, owner: Some(WindowId::new(owner)) }
    }
}

/// The owner an auxiliary window gets: its own when it names one, else the main window,
/// unless it is the main window itself.
pub open spec fn auxiliary_owner_of(
    owner: Option<Seq<char>>,
    id: Seq<char>,
    main_id: Seq<char>,
) -> Option<Seq<char>> {
    if owner is None && id != main_id {
        Some(main_id)
    } else {
        owner
    }
}

/// Prepares the options of a window opened after the main one.
pub fn prepare_auxiliary_window(main_id: &WindowId, options: WindowOptions) -> (r: WindowOptions)
    ensures
        r.id.0@ == options.id.0@,
        owner_view(r.owner) == auxiliary_owner_of(owner_view(options.owner), options.id.0@, main_id.0@),
{
    let mut options = options;
    if options.owner.is_none() && !(options.id.0 == main_id.0) {
        options.owner = Some(main_id.duplicate());
    }
    options
}

/// A monitor's position and size in physical pixels.
#[derive(Clone, Copy, Debug, PartialEq, Eq, Structural)]
pub struct MonitorArea {
    pub x: i32,
    pub y: i32,
    pub width: u32,
    pub height: u32,
}

/// Where a window asks to be placed when it opens.
#[derive(Clone, Copy, Debug, PartialEq, Eq, Structural)]
pub enum WindowPosition {
    /// Wherever the platform puts it.
    Platform,
    /// Centered on its monitor.
    Centered,
    /// Beside its owner, `gap` pixels to the right (or to the left where the right
    /// side has no room).
    AdjacentToOwner { gap: i32 },
    /// Below and to the right of the cursor, `gap` pixels away, flipped where the
    /// monitor has no room.
    NearCursor { gap: i32 },
}

pub open spec fn clamp_to(v: int, lo: int, hi: int) -> int {
    if v < lo {
        lo
    } else if v > hi {
        hi
    } else {
        v
    }
}

pub open spec fn max_of(a: int, b: int) -> int {
    if a < b {
        b
    } else {
        a
    }
}

/// `d / 2` rounded toward zero.
pub open spec fn half_toward_zero(d: int) -> int {
    if d >= 0 {
        d / 2
    } else {
        -((-d) / 2)
    }
}

pub open spec fn adjacent_position_of(
    owner_x: int,
    owner_y: int,
    owner_width: int,
    width: int,
    height: int,
    gap: int,
    monitor: Option<MonitorArea>,
) -> (int, int) {
    let x = owner_x + owner_width + gap;
    match monitor {
        None => (x, owner_y),
        Some(m) => {
            let right = m.x + m.width;
            let bottom = m.y + m.height;
            let x = if x + width > right {
                owner_x - width - gap
            } else {
                x
            };
            (
                clamp_to(x, m.x as int, max_of(right - width, m.x as int)),
                clamp_to(owner_y, m.y as int, max_of(bottom - height, m.y as int)),
            )
        },
    }
}

fn clamp_i64(v: i64, lo: i64, hi: i64) -> (r: i64)
    requires
        lo <= hi,
    ensures
        r == clamp_to(v as int, lo as int, hi as int),
{
    if v < lo {
        lo
    } else if v > hi {
        hi
    } else {
        v
    }
}

fn max_i64(a: i64, b: i64) -> (r: i64)
    ensures
        r == max_of(a as int, b as int),
{
    if a < b {
        b
    } else {
        a
    }
}

/// The position of a `width` x `height` window beside its owner, kept on the owner's
/// monitor when it is known.
pub fn adjacent_position(
    owner_x: i32,
    owner_y: i32,
    owner_width: u32,
    width: u32,
    height: u32,
    gap: i32,
    monitor: Option<MonitorArea>,
) -> (r: (i64, i64))
    ensures
        (r.0 as int, r.1 as int) == adjacent_position_of(
            owner_x as int,
            owner_y as int,
            owner_width as int,
            width as int,
            height as int,
            gap as int,
            monitor,
        ),
{
    let x = owner_x as i64 + owner_width as i64 + gap as i64;
    match monitor {
        None => (x, owner_y as i64),
        Some(m) => {
            let right = m.x as i64 + m.width as i64;
            let bottom = m.y as i64 + m.height as i64;
            let x = if x + width as i64 > right {
                owner_x as i64 - width as i64 - gap as i64
            } else {
                x
            };
            let hi_x = max_i64(right - width as i64, m.x as i64);
            let hi_y = max_i64(bottom - height as i64, m.y as i64);
            (clamp_i64(x, m.x as i64, hi_x), clamp_i64(owner_y as i64, m.y as i64, hi_y))
        },
    }
}

pub open spec fn near_cursor_position_of(
    cursor_x: int,
    cursor_y: int,
    width: int,
    height: int,
    gap: int,
    monitor: Option<MonitorArea>,
) -> (int, int) {
    let x = cursor_x + gap;
    let y = cursor_y + gap;
    match monitor {
        None => (x, y),
        Some(m) => {
            let right = m.x + m.width;
            let bottom = m.y + m.height;
            let x = if x + width > right {
                cursor_x - width - gap
            } else {
                x
            };
            let y = if y + height > bottom {
                cursor_y - height - gap
            } else {
                y
            };
            (
                clamp_to(x, m.x as int, max_of(right - width, m.x as int)),
                clamp_to(y, m.y as int, max_of(bottom - height, m.y as int)),
            )
        },
    }
}

/// The position of a `width` x `height` window next to the cursor, kept on the
/// window's monitor when it is known.
pub fn near_cursor_position(
    cursor_x: i32,
    cursor_y: i32,
    width: u32,
    height: u32,
    gap: i32,
    monitor: Option<MonitorArea>,
) -> (r: (i64, i64))
    ensures
        (r.0 as int, r.1 as int) == near_cursor_position_of(
            cursor_x as int,
            cursor_y as int,
            width as int,
            height as int,
            gap as int,
            monitor,
        ),
{
    let x = cursor_x as i64 + gap as i64;
    let y = cursor_y as i64 + gap as i64;
    match monitor {
        None => (x, y),
        Some(m) => {
            let right = m.x as i64 + m.width as i64;
            let bottom = m.y as i64 + m.height as i64;
            let x = if x + width as i64 > right {
                cursor_x as i64 - width as i64 - gap as i64
            } else {
                x
            };
            let y = if y + height as i64 > bottom {
                cursor_y as i64 - height as i64 - gap as i64
            } else {
                y
            };
            let hi_x = max_i64(right - width as i64, m.x as i64);
            let hi_y = max_i64(bottom - height as i64, m.y as i64);
            (clamp_i64(x, m.x as i64, hi_x), clamp_i64(y, m.y as i64, hi_y))
        },
    }
}

pub open spec fn centered_position_of(monitor: MonitorArea, width: int, height: int) -> (int, int) {
    (
        monitor.x + half_toward_zero(monitor.width - width),
        monitor.y + half_toward_zero(monitor.height - height),
    )
}

fn half_toward_zero_i64(d: i64) -> (r: i64)
    requires
        d > i64::MIN,
    ensures
        r == half_toward_zero(d as int),
{
    if d >= 0 {
        d / 2
    } else {
        -((-d) / 2)
    }
}

/// The position that centers a `width` x `height` window on a monitor.
pub fn centered_position(monitor: MonitorArea, width: u32, height: u32) -> (r: (i64, i64))
    ensures
        (r.0 as int, r.1 as int) == centered_position_of(monitor, width as int, height as int),
{
    let dx = half_toward_zero_i64(monitor.width as i64 - width as i64);
    let dy = half_toward_zero_i64(monitor.height as i64 - height as i64);
    (monitor.x as i64 + dx, monitor.y as i64 + dy)
}

/// The owner of a window as far as placement needs it: its outer frame and monitor.
#[derive(Clone, Copy, Debug, PartialEq, Eq, Structural)]
pub struct OwnerFrame {
    pub x: i32,
    pub y: i32,
    pub width: u32,
    pub monitor: Option<MonitorArea>,
}

pub open spec fn window_position_of(
    position: WindowPosition,
    width: int,
    height: int,
    owner: Option<OwnerFrame>,
    cursor: Option<(i32, i32)>,
    monitor: Option<MonitorArea>,
) -> Option<(int, int)> {
    match (position, owner, cursor, monitor) {
        (WindowPosition::AdjacentToOwner { gap }, Some(o), _, _) => Some(
            adjacent_position_of(o.x as int, o.y as int, o.width as int, width, height, gap as int, o.monitor),
        ),
        (WindowPosition::NearCursor { gap }, _, Some(c), _) => Some(
            near_cursor_position_of(c.0 as int, c.1 as int, width, height, gap as int, monitor),
        ),
        (WindowPosition::Centered, _, _, Some(m)) => Some(centered_position_of(m, width, height)),
        _ => None,
    }
}

/// Where to move a newly opened `width` x `height` window, if anywhere: `owner` is the
/// owner's frame when it has one and its position is known, `cursor` the cursor
/// position, and `monitor` the window's current monitor.
pub fn window_position(
    position: WindowPosition,
    width: u32,
    height: u32,
    owner: Option<OwnerFrame>,
    cursor: Option<(i32, i32)>,
    monitor: Option<MonitorArea>,
) -> (r: Option<(i64, i64)>)
    ensures
        match r {
            Some(p) => window_position_of(position, width as int, height as int, owner, cursor, monitor)
                == Some((p.0 as int, p.1 as int)),
            None => window_position_of(position, width as int, height as int, owner, cursor, monitor)
                is None,
        },
{
    match (position, owner, cursor, monitor) {
        (WindowPosition::AdjacentToOwner { gap }, Some(o), _, _) => Some(
            adjacent_position(o.x, o.y, o.width, width, height, gap, o.monitor),
        ),
        (WindowPosition::NearCursor { gap }, _, Some(c), _) => Some(
            near_cursor_position(c.0, c.1, width, height, gap, monitor),
        ),
        (WindowPosition::Centered, _, _, Some(m)) => Some(centered_position(m, width, height)),
        _ => None,
    }
}

/// A window placed near the cursor stays on its monitor whenever the monitor is at
/// least as large as the window.
pub proof fn law_near_cursor_stays_on_monitor(
    cursor_x: int,
    cursor_y: int,
    width: int,
    height: int,
    gap: int,
    m: MonitorArea,
)
    requires
        0 <= width <= m.width,
        0 <= height <= m.height,
    ensures
        ({
            let p = near_cursor_position_of(cursor_x, cursor_y, width, height, gap, Some(m));
            &&& m.x <= p.0
            &&& p.0 + width <= m.x + m.width
            &&& m.y <= p.1
            &&& p.1 + height <= m.y + m.height
        }),
{
}

/// A window placed beside its owner stays on the owner's monitor whenever the monitor
/// is at least as large as the window.
pub proof fn law_adjacent_stays_on_monitor(
    owner_x: int,
    owner_y: int,
    owner_width: int,
    width: int,
    height: int,
    gap: int,
    m: MonitorArea,
)
    requires
        0 <= width <= m.width,
        0 <= height <= m.height,
    ensures
        ({
            let p = adjacent_position_of(owner_x, owner_y, owner_width, width, height, gap, Some(m));
            &&& m.x <= p.0
            &&& p.0 + width <= m.x + m.width
            &&& m.y <= p.1
            &&& p.1 + height <= m.y + m.height
        }),
{
}


/// Where a layered popup window sits.
#[derive(Clone, Copy, Debug, PartialEq, Eq, Structural)]
pub enum LayeredWindowPosition {
    /// Beside its owner window, `gap` pixels away: to the right where the work area has
    /// room, else to the left.
    AdjacentToOwner { gap: i32 },
    /// Centered in the work area.
    CenterScreen,
}

/// The frame `(x, y, width, height)` of a layered window in a work area, all in physical
/// pixels: at most as wide as the work area and at least one pixel wide; its preferred
/// height (or, beside an owner, the owner's height) kept between the minimum height and
/// the work area's height; and placed beside the owner or centered as `position` says.
pub open spec fn layered_frame_of(
    work: PhysicalRect,
    config_width: int,
    preferred_height: int,
    min_height: int,
    position: LayeredWindowPosition,
    owner: PhysicalRect,
) -> (int, int, int, int) {
    let work_width = work.right - work.left;
    let work_height = work.bottom - work.top;
    let width = max_of(if config_width < work_width { config_width } else { work_width }, 1);
    let floor = if min_height < work_height { min_height } else { work_height };
    match position {
        LayeredWindowPosition::AdjacentToOwner { gap } => {
            let height = clamp_to(owner.bottom - owner.top, floor, work_height);
            let right_x = owner.right + gap;
            let left_x = owner.left - width - gap;
            let x = if right_x + width <= work.right {
                right_x
            } else {
                left_x
            };
            (
                clamp_to(x, work.left as int, work.right - width),
                clamp_to(owner.top as int, work.top as int, work.bottom - height),
                width,
                height,
            )
        },
        LayeredWindowPosition::CenterScreen => {
            let height = clamp_to(preferred_height, floor, work_height);
            (
                work.left + half_toward_zero(work_width - width),
                work.top + half_toward_zero(work_height - height),
                width,
                height,
            )
        },
    }
}

/// The frame `(x, y, width, height)` of a layered window of `config_width` and
/// `preferred_height` (at least `min_height`) physical pixels in the work area `work`,
/// beside `owner` or centered as `position` says.
pub fn layered_window_frame(
    work: PhysicalRect,
    config_width: i32,
    preferred_height: i32,
    min_height: i32,
    position: LayeredWindowPosition,
    owner: PhysicalRect,
) -> (r: (i64, i64, i64, i64))
    requires
        position is AdjacentToOwner ==> work.right - work.left >= 1,
    ensures
        (r.0 as int, r.1 as int, r.2 as int, r.3 as int) == layered_frame_of(
            work,
            config_width as int,
            preferred_height as int,
            min_height as int,
            position,
            owner,
        ),
{
    let work_width = work.right as i64 - work.left as i64;
    let work_height = work.bottom as i64 - work.top as i64;
    let narrowed = if (config_width as i64) < work_width {
        config_width as i64
    } else {
        work_width
    };
    let width = max_i64(narrowed, 1);
    let floor = if (min_height as i64) < work_height {
        min_height as i64
    } else {
        work_height
    };
    match position {
        LayeredWindowPosition::AdjacentToOwner { gap } => {
            let height = clamp_i64(owner.bottom as i64 - owner.top as i64, floor, work_height);
            let right_x = owner.right as i64 + gap as i64;
            let left_x = owner.left as i64 - width - gap as i64;
            let x = if right_x + width <= work.right as i64 {
                right_x
            } else {
                left_x
            };
            (
                clamp_i64(x, work.left as i64, work.right as i64 - width),
                clamp_i64(owner.top as i64, work.top as i64, work.bottom as i64 - height),
                width,
                height,
            )
        },
        LayeredWindowPosition::CenterScreen => {
            let height = clamp_i64(preferred_height as i64, floor, work_height);
            (
                work.left as i64 + half_toward_zero_i64(work_width - width),
                work.top as i64 + half_toward_zero_i64(work_height - height),
                width,
                height,
            )
        },
    }
}

/// The amount one notch of a mouse wheel reports.
pub const WHEEL_DELTA: i32 = 120;

/// The lines a wheel movement of `delta` scrolls: one line at least for any movement,
/// one more for each whole notch, downwards (positive) for a wheel turned towards the
/// user (a negative delta).
pub fn wheel_scroll_units(delta: i32) -> (r: i32)
    requires
        delta != i32::MIN,
    ensures
        delta == 0 ==> r == 0,
        delta > 0 ==> r == -max_of(delta as int / WHEEL_DELTA as int, 1),
        delta < 0 ==> r == max_of((-delta) as int / WHEEL_DELTA as int, 1),
{
    if delta == 0 {
        return 0;
    }
    let magnitude = if delta < 0 {
        -delta
    } else {
        delta
    };
    let notches = magnitude / WHEEL_DELTA;
    let units = if notches < 1 {
        1
    } else {
        notches
    };
    if delta > 0 {
        -units
    } else {
        units
    }
}

/// A 16-bit word read as a signed value.
pub open spec fn signed_word(word: int) -> int {
    if word >= 0x8000 {
        word - 0x1_0000
    } else {
        word
    }
}

fn word_as_signed(word: isize) -> (r: i32)
    requires
        0 <= word <= 0xFFFF,
    ensures
        r == signed_word(word as int),
{
    if word >= 0x8000 {
        (word - 0x1_0000) as i32
    } else {
        word as i32
    }
}

/// The signed client coordinates packed in a mouse message's `lparam`: `x` in the low
/// word, `y` in the next.
pub fn unpack_point(lparam: isize) -> (r: (i32, i32))
    ensures
        r.0 == signed_word((lparam & 0xFFFF) as int),
        r.1 == signed_word(((lparam >> 16) & 0xFFFF) as int),
{
    let low = lparam & 0xFFFF;
    let high = (lparam >> 16) & 0xFFFF;
    assert(0 <= low <= 0xFFFF && 0 <= high <= 0xFFFF) by (bit_vector)
        requires
            low == lparam & 0xFFFF,
            high == (lparam >> 16) & 0xFFFF,
    ;
    (word_as_signed(low), word_as_signed(high))
}

/// The signed wheel movement packed in the high word of a wheel message's `wparam`.
pub fn wheel_delta(wparam: usize) -> (r: i32)
    ensures
        r == signed_word(((wparam >> 16) & 0xFFFF) as int),
{
    let word = (wparam >> 16) & 0xFFFF;
    assert(word <= 0xFFFF) by (bit_vector)
        requires
            word == (wparam >> 16) & 0xFFFF,
    ;
    word_as_signed(word as isize)
}

} // verus!
