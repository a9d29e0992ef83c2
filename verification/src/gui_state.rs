//! The decisions of the window: which request its fields make, when the preview
//! is redrawn, when the background colour is locked.
use vstd::prelude::*;
use vstd::string::*;
use crate::args::Args;
use crate::text::{trim, trim_str};

verus! {

/// The largest side, in pixels, asked of a preview.
pub const PREVIEW_MAX_SIZE: u32 = 720;

/// How long, in milliseconds, the fields must stay still before the preview is
/// redrawn.
pub const PREVIEW_DELAY_MS: u64 = 140;

/// The request made by the fields of the window: a preview asks for at most
/// `PREVIEW_MAX_SIZE` pixels, and a blank picture path for no picture.
pub fn request_args(
    link: &String,
    output: &String,
    size: u32,
    fg: &String,
    bg: &String,
    bg_image: &String,
    preview: bool,
) -> (r: Args)
    ensures
        r.link matches Some(l) && l@ == link@,
        r.output@ == output@,
        r.size == if preview && size > PREVIEW_MAX_SIZE {
            PREVIEW_MAX_SIZE
        } else {
            size
        },
        r.fg@ == fg@,
        r.bg@ == bg@,
        if trim(bg_image@).len() == 0 {
            r.bg_image is None
        } else {
            r.bg_image matches Some(p) && p@ == bg_image@
        },
        r.gui,
{
    Args {
        link: Some(link.clone()),
        output: output.clone(),
        size: if preview && size > PREVIEW_MAX_SIZE {
            PREVIEW_MAX_SIZE
        } else {
            size
        },
        fg: fg.clone(),
        bg: bg.clone(),
        bg_image: if trim_str(bg_image.as_str()).is_empty() {
            None
        } else {
            Some(bg_image.clone())
        },
        gui: true,
    }
}

/// Whether the background colour is locked: the lock is on and a picture is chosen.
pub fn background_locked(lock: bool, bg_image: &str) -> (r: bool)
    ensures
        r == (lock && trim(bg_image@).len() > 0),
{
    lock && !trim_str(bg_image).is_empty()
}

/// What the window does about its preview on a frame.
#[derive(PartialEq, Eq, Structural, Clone, Copy, Debug)]
pub enum PreviewStep {
    /// Nothing changed since the last preview.
    Idle,
    /// Redraw the preview now.
    Refresh,
    /// Ask for another frame in 60 ms.
    Wait,
}

/// The preview is redrawn once the fields changed and stayed still for
/// `PREVIEW_DELAY_MS` milliseconds.
pub fn preview_step(dirty: bool, elapsed_ms: u64) -> (r: PreviewStep)
    ensures
        r == if !dirty {
            PreviewStep::Idle
        } else if elapsed_ms >= PREVIEW_DELAY_MS {
            PreviewStep::Refresh
        } else {
            PreviewStep::Wait
        },
{
    if !dirty {
        PreviewStep::Idle
    } else if elapsed_ms >= PREVIEW_DELAY_MS {
        PreviewStep::Refresh
    } else {
        PreviewStep::Wait
    }
}

} // verus!
