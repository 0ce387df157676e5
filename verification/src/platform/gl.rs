use vstd::prelude::*;

verus! {

/// Whether to ask the GL config for pixel-format transparency. Windows composes
/// transparent windows through the desktop compositor, where an alpha-capable
/// framebuffer is what matters and the pixel-format flag rejects valid configs.
pub fn request_gl_config_transparency(transparent: bool, on_windows: bool) -> (r: bool)
    ensures
        r == (transparent && !on_windows),
{
    transparent && !on_windows
}

pub open spec fn supports_window_transparency_of(
    transparent: bool,
    alpha_size: u8,
    config_supports_transparency: Option<bool>,
    on_windows: bool,
) -> bool {
    if !transparent {
        true
    } else if alpha_size == 0 {
        false
    } else {
        on_windows || config_supports_transparency != Some(false)
    }
}

/// Whether a GL config can back a window: an opaque window takes any config; a
/// transparent one needs an alpha channel and, off Windows, a config that does not
/// deny transparency.
pub fn supports_window_transparency(
    transparent: bool,
    alpha_size: u8,
    config_supports_transparency: Option<bool>,
    on_windows: bool,
) -> (r: bool)
    ensures
        r == supports_window_transparency_of(
            transparent,
            alpha_size,
            config_supports_transparency,
            on_windows,
        ),
{
    if !transparent {
        return true;
    }
    if alpha_size == 0 {
        return false;
    }
    on_windows || !matches!(config_supports_transparency, Some(false))
}

} // verus!
