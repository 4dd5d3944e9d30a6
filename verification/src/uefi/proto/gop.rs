//! The graphics output protocol: the current video mode and its framebuffer.
use vstd::prelude::*;

verus! {

/// The masks of the bits of a pixel that hold each colour.
#[derive(Clone, Copy, Debug, PartialEq, Eq, Structural)]
pub struct PixelBitmask {
    pub red_mask: u32,
    pub green_mask: u32,
    pub blue_mask: u32,
    pub reserved_mask: u32,
}

/// How the pixels of the framebuffer are laid out.
#[derive(Clone, Copy, Debug, PartialEq, Eq, Structural)]
pub enum PixelFormat {
    Rgb,
    Bgr,
    Bitmask(PixelBitmask),
    /// There is no framebuffer to draw to directly.
    Unknown,
}

impl PixelFormat {
    /// Whether the mode has a framebuffer that can be drawn to directly.
    pub fn has_framebuffer(&self) -> (r: bool)
        ensures
            r == !(*self is Unknown),
    {
        match self {
            PixelFormat::Unknown => false,
            _ => true,
        }
    }
}

/// Where the framebuffer lies.
#[derive(Clone, Copy, Debug, PartialEq, Eq, Structural)]
pub struct FramebufferInfo {
    pub base: u64,
    pub size: usize,
}

/// The resolution and pixel layout of a video mode.
#[derive(Clone, Copy, Debug, PartialEq, Eq, Structural)]
pub struct ModeInfo {
    pub hres: u32,
    pub vres: u32,
    pub pixels_per_scanline: u32,
    pub pixel_format: PixelFormat,
}

/// The current video mode and its framebuffer, if it has one.
#[derive(Clone, Copy, Debug, PartialEq, Eq, Structural)]
pub struct CurrentMode {
    pub info: ModeInfo,
    pub framebuffer: Option<FramebufferInfo>,
}

/// A mode's information as the firmware lays it out.
#[derive(Clone, Copy, Debug, PartialEq, Eq, Structural)]
pub struct ModeInfoAbi {
    pub version: u32,
    pub hres: u32,
    pub vres: u32,
    pub pixel_format: u32,
    pub pixel_bitmask: PixelBitmask,
    pub pixels_per_scanline: u32,
}

/// The current mode as the firmware lays it out, without its mode information.
#[derive(Clone, Copy, Debug, PartialEq, Eq, Structural)]
pub struct CurrentModeAbi {
    pub max_mode: u32,
    pub mode: u32,
    pub info_size: usize,
    pub framebuffer_base: u64,
    pub framebuffer_size: usize,
}

/// The firmware's code of the RGB pixel format.
pub const PIXEL_FORMAT_RGB: u32 = 0;
/// The firmware's code of the BGR pixel format.
pub const PIXEL_FORMAT_BGR: u32 = 1;
/// The firmware's code of pixel formats given by bit masks.
pub const PIXEL_FORMAT_BITMASK: u32 = 2;

/// The pixel format that the firmware's code `code` and masks `mask` describe.
pub open spec fn spec_pixel_format(code: u32, mask: PixelBitmask) -> PixelFormat {
    if code == PIXEL_FORMAT_RGB {
        PixelFormat::Rgb
    } else if code == PIXEL_FORMAT_BGR {
        PixelFormat::Bgr
    } else if code == PIXEL_FORMAT_BITMASK {
        PixelFormat::Bitmask(mask)
    } else {
        PixelFormat::Unknown
    }
}

/// Decodes a mode's information from the firmware's layout.
pub fn mode_info_from_abi(abi: &ModeInfoAbi) -> (r: ModeInfo)
    ensures
        r == (ModeInfo {
            hres: abi.hres,
            vres: abi.vres,
            pixels_per_scanline: abi.pixels_per_scanline,
            pixel_format: spec_pixel_format(abi.pixel_format, abi.pixel_bitmask),
        }),
{
    let pixel_format = if abi.pixel_format == PIXEL_FORMAT_RGB {
        PixelFormat::Rgb
    } else if abi.pixel_format == PIXEL_FORMAT_BGR {
        PixelFormat::Bgr
    } else if abi.pixel_format == PIXEL_FORMAT_BITMASK {
        PixelFormat::Bitmask(abi.pixel_bitmask)
    } else {
        PixelFormat::Unknown
    };
    ModeInfo { hres: abi.hres, vres: abi.vres, pixels_per_scanline: abi.pixels_per_scanline, pixel_format }
}

/// The current mode, from the firmware's description of it and of its mode information: the
/// framebuffer is reported only when the pixel format allows drawing to it.
pub fn current_mode_from_abi(mode: &CurrentModeAbi, info: &ModeInfoAbi) -> (r: CurrentMode)
    ensures
        r.info == (ModeInfo {
            hres: info.hres,
            vres: info.vres,
            pixels_per_scanline: info.pixels_per_scanline,
            pixel_format: spec_pixel_format(info.pixel_format, info.pixel_bitmask),
        }),
        r.info.pixel_format is Unknown ==> r.framebuffer is None,
        !(r.info.pixel_format is Unknown) ==> r.framebuffer == Some(
            FramebufferInfo { base: mode.framebuffer_base, size: mode.framebuffer_size },
        ),
{
    let info = mode_info_from_abi(info);
    let framebuffer = if info.pixel_format.has_framebuffer() {
        Some(FramebufferInfo { base: mode.framebuffer_base, size: mode.framebuffer_size })
    } else {
        None
    };
    CurrentMode { info, framebuffer }
}

} // verus!
