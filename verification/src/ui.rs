//! Region editing: drag rectangles, resize handles, hotkey names, new region
//! ids and the debug panel's commands.
use vstd::prelude::*;
use crate::text::{decimal, push_char, push_decimal, push_str, string_from_chars};

verus! {

/// One active drag rectangle during region editing, in screen pixels.
#[derive(Debug, Clone, Copy)]
pub struct DragRect {
    pub start: (i32, i32),
    pub current: (i32, i32),
}

/// The smaller of two integers.
pub open spec fn min_of(a: int, b: int) -> int {
    if a <= b {
        a
    } else {
        b
    }
}

/// The larger of two integers.
pub open spec fn max_of(a: int, b: int) -> int {
    if a >= b {
        a
    } else {
        b
    }
}

/// The normalized rectangle `(x, y, width, height)` spanned by a drag from
/// `start` to `current`: its top-left corner is the smaller coordinate on each
/// axis, its size the distance between the two points.
pub open spec fn drag_bounds(start: (i32, i32), current: (i32, i32)) -> (int, int, int, int) {
    let x = min_of(start.0 as int, current.0 as int);
    let y = min_of(start.1 as int, current.1 as int);
    (
        x,
        y,
        max_of(start.0 as int, current.0 as int) - x,
        max_of(start.1 as int, current.1 as int) - y,
    )
}

impl DragRect {
    /// Whether the drag's width and height fit in an `i32`.
    pub open spec fn fits(self) -> bool {
        let b = drag_bounds(self.start, self.current);
        b.2 <= i32::MAX && b.3 <= i32::MAX
    }

    /// The normalized rectangle `(x, y, width, height)` the drag spans.
    pub fn bounds(&self) -> (r: (i32, i32, i32, i32))
        requires
            self.fits(),
        ensures
            (r.0 as int, r.1 as int, r.2 as int, r.3 as int) == drag_bounds(self.start, self.current),
    {
        let x = if self.start.0 <= self.current.0 {
            self.start.0
        } else {
            self.current.0
        };
        let y = if self.start.1 <= self.current.1 {
            self.start.1
        } else {
            self.current.1
        };
        let right = if self.start.0 >= self.current.0 {
            self.start.0
        } else {
            self.current.0
        };
        let bottom = if self.start.1 >= self.current.1 {
            self.start.1
        } else {
            self.current.1
        };
        (x, y, right - x, bottom - y)
    }
}

/// A drag's rectangle contains both of its end points and nothing wider: its
/// size is never negative and its corners are the two points' extremes.
pub proof fn law_drag_bounds_cover_points(start: (i32, i32), current: (i32, i32))
    ensures
        ({
            let b = drag_bounds(start, current);
            &&& b.2 >= 0
            &&& b.3 >= 0
            &&& b.0 <= start.0 <= b.0 + b.2
            &&& b.0 <= current.0 <= b.0 + b.2
            &&& b.1 <= start.1 <= b.1 + b.3
            &&& b.1 <= current.1 <= b.1 + b.3
            &&& drag_bounds(current, start) == b
        }),
{
}

/// Which edge or corner of a region is being resized.
#[derive(Debug, Clone, Copy, PartialEq, Eq)]
pub enum ResizeHandle {
    TopLeft,
    Top,
    TopRight,
    Right,
    BottomRight,
    Bottom,
    BottomLeft,
    Left,
}

/// Commands from the debug panel, drained by the main UI thread.
#[derive(Debug, Clone, Copy, PartialEq, Eq)]
pub enum DebugCommand {
    StartPipeline,
    StopPipeline,
    ToggleMode,
    /// Push the panel's configuration into the app and save it.
    ApplyConfig,
    /// Reload the app configuration from disk into the panel.
    ReloadConfig,
}

/// Whether `n` is a Unicode scalar value: a code point outside the surrogates.
pub open spec fn is_scalar_value(n: int) -> bool {
    (0 <= n <= 0xD7FF) || (0xE000 <= n <= 0x10FFFF)
}

/// `char::from_u32`: the character with code point `n`, if `n` is a Unicode
/// scalar value. Its documentation states exactly this.
#[verifier::external_body]
fn char_from_u32(n: u32) -> (r: Option<char>)
    ensures
        r is Some <==> is_scalar_value(n as int),
        r matches Some(c) ==> c as int == n as int,
{
    char::from_u32(n)
}

/// The display name of a virtual-key code: the character with that code, or
/// `VK_` and the code in decimal when it is no character.
pub open spec fn key_name(vk: u32) -> Seq<char> {
    if is_scalar_value(vk as int) {
        seq![vk as char]
    } else {
        "VK_"@ + decimal(vk as nat)
    }
}

/// The name under which a hotkey's virtual-key code is shown.
pub fn vk_to_str(vk: u32) -> (s: String)
    ensures
        s@ == key_name(vk),
{
    match char_from_u32(vk) {
        Some(c) => {
            let mut s = String::new();
            push_char(&mut s, c);
            assert(s@ =~= seq![vk as char]);
            s
        },
        None => {
            let mut v: Vec<char> = Vec::new();
            push_str(&mut v, "VK_");
            push_decimal(&mut v, vk as u64);
            string_from_chars(&v, 0, v.len())
        },
    }
}

/// The id given to a region drawn after `existing` others: `r` and its
/// position, counting from one.
pub open spec fn region_id_for(existing: nat) -> Seq<char> {
    seq!['r'] + decimal(existing + 1)
}

/// The id for a newly drawn region, given how many regions exist already.
pub fn next_region_id(existing: usize) -> (id: String)
    requires
        existing < u64::MAX,
    ensures
        id@ == region_id_for(existing as nat),
{
    let mut v: Vec<char> = Vec::new();
    v.push('r');
    push_decimal(&mut v, existing as u64 + 1);
    assert(v@ =~= region_id_for(existing as nat));
    string_from_chars(&v, 0, v.len())
}

} // verus!
