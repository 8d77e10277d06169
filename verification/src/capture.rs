//! Clipping of capture requests to the duplicated screen output.
use vstd::prelude::*;

verus! {

/// The part of the `w`×`h` rectangle at `(x, y)` that lies on a screen of
/// `screen_w`×`screen_h` pixels, as `(x, y, w, h)`: the origin is clamped to
/// the screen, the far edges too, and nothing remains when the result is empty
/// (or the request is).
pub open spec fn clipped_region(x: int, y: int, w: int, h: int, screen_w: int, screen_h: int) -> Option<
    (int, int, int, int),
> {
    if w == 0 || h == 0 {
        None
    } else {
        let cx = if x < screen_w {
            x
        } else {
            screen_w
        };
        let cy = if y < screen_h {
            y
        } else {
            screen_h
        };
        let right = if cx + w < screen_w {
            cx + w
        } else {
            screen_w
        };
        let bottom = if cy + h < screen_h {
            cy + h
        } else {
            screen_h
        };
        if right <= cx || bottom <= cy {
            None
        } else {
            Some((cx, cy, right - cx, bottom - cy))
        }
    }
}

/// Clips a capture request (output-local coordinates) to the screen.
pub fn clip_to_screen(x: u32, y: u32, w: u32, h: u32, screen_w: u32, screen_h: u32) -> (r: Option<
    (u32, u32, u32, u32),
>)
    requires
        w > 0 && h > 0 ==> {
            &&& (if x < screen_w {
                x
            } else {
                screen_w
            }) + w <= u32::MAX
            &&& (if y < screen_h {
                y
            } else {
                screen_h
            }) + h <= u32::MAX
        },
    ensures
        match r {
            Some(c) => clipped_region(
                x as int,
                y as int,
                w as int,
                h as int,
                screen_w as int,
                screen_h as int,
            ) == Some((c.0 as int, c.1 as int, c.2 as int, c.3 as int)),
            None => clipped_region(
                x as int,
                y as int,
                w as int,
                h as int,
                screen_w as int,
                screen_h as int,
            ) is None,
        },
{
    if w == 0 || h == 0 {
        return None;
    }
    let cx = if x < screen_w {
        x
    } else {
        screen_w
    };
    let cy = if y < screen_h {
        y
    } else {
        screen_h
    };
    let right = if cx + w < screen_w {
        cx + w
    } else {
        screen_w
    };
    let bottom = if cy + h < screen_h {
        cy + h
    } else {
        screen_h
    };
    if right <= cx || bottom <= cy {
        return None;
    }
    Some((cx, cy, right - cx, bottom - cy))
}

/// A clipped region is never empty and never leaves the screen.
pub proof fn law_clip_within_screen(x: int, y: int, w: int, h: int, screen_w: int, screen_h: int)
    requires
        0 <= x,
        0 <= y,
        0 <= w,
        0 <= h,
        0 <= screen_w,
        0 <= screen_h,
    ensures
        clipped_region(x, y, w, h, screen_w, screen_h) matches Some(c) ==> {
            &&& c.2 > 0
            &&& c.3 > 0
            &&& c.0 + c.2 <= screen_w
            &&& c.1 + c.3 <= screen_h
            &&& c.2 <= w
            &&& c.3 <= h
        },
{
}

/// A duplicated display output as the capture logic sees it: where it sits on
/// the virtual screen and how large it is. The graphics objects that grab
/// its frames stay with the platform layer.
pub struct DesktopCapture {
    origin: (i32, i32),
    screen_size: (u32, u32),
}

impl DesktopCapture {
    /// Top-left corner of the output in virtual-screen coordinates.
    pub closed spec fn origin_spec(&self) -> (i32, i32) {
        self.origin
    }

    /// Width and height of the output in pixels.
    pub closed spec fn screen_size_spec(&self) -> (u32, u32) {
        self.screen_size
    }

    /// An output from its desktop coordinates: the rectangle
    /// `left, top, right, bottom` that the display reports.
    pub fn from_desktop_coordinates(left: i32, top: i32, right: i32, bottom: i32) -> (c: Self)
        requires
            i32::MIN <= right - left <= i32::MAX,
            i32::MIN <= bottom - top <= i32::MAX,
        ensures
            c.origin_spec() == (left, top),
            c.screen_size_spec() == ((right - left) as u32, (bottom - top) as u32),
    {
        let w = right - left;
        let h = bottom - top;
        DesktopCapture { origin: (left, top), screen_size: (w as u32, h as u32) }
    }

    /// Top-left corner of the duplicated output in virtual-screen coordinates.
    pub fn origin(&self) -> (o: (i32, i32))
        ensures
            o == self.origin_spec(),
    {
        self.origin
    }

    /// Width and height of the duplicated output.
    pub fn screen_size(&self) -> (s: (u32, u32))
        ensures
            s == self.screen_size_spec(),
    {
        self.screen_size
    }

    /// The part of a capture request (output-local coordinates) that lies on
    /// this output, or `None` when nothing of it does.
    pub fn clip_request(&self, x: u32, y: u32, w: u32, h: u32) -> (r: Option<(u32, u32, u32, u32)>)
        requires
            w > 0 && h > 0 ==> {
                &&& (if x < self.screen_size_spec().0 {
                    x
                } else {
                    self.screen_size_spec().0
                }) + w <= u32::MAX
                &&& (if y < self.screen_size_spec().1 {
                    y
                } else {
                    self.screen_size_spec().1
                }) + h <= u32::MAX
            },
        ensures
            match r {
                Some(c) => clipped_region(
                    x as int,
                    y as int,
                    w as int,
                    h as int,
                    self.screen_size_spec().0 as int,
                    self.screen_size_spec().1 as int,
                ) == Some((c.0 as int, c.1 as int, c.2 as int, c.3 as int)),
                None => clipped_region(
                    x as int,
                    y as int,
                    w as int,
                    h as int,
                    self.screen_size_spec().0 as int,
                    self.screen_size_spec().1 as int,
                ) is None,
            },
    {
        clip_to_screen(x, y, w, h, self.screen_size.0, self.screen_size.1)
    }
}

} // verus!
