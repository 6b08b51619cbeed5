//! The metadata record that every decoder produces.

use vstd::prelude::*;

verus! {

/// What is known of an image once its header has been read.
#[derive(Clone, Debug, PartialEq, Eq)]
pub struct ImageMeta {
    /// The number of display frames, present only for an animation.
    pub animation_frames: Option<usize>,
    pub color: Color,
    pub dimensions: Dimensions,
    pub format: Format,
}

/// Width and height in pixels.
#[derive(Clone, Debug, PartialEq, Eq)]
pub struct Dimensions {
    pub height: u32,
    pub width: u32,
}

/// The container an image was recognised as.
#[derive(Clone, Copy, Debug, PartialEq, Eq)]
pub enum Format {
    Bmp,
    Gif,
    Jpeg,
    Png,
    Webp,
    Hdr,
    Qoi,
}

#[derive(Clone, Copy, Debug, PartialEq, Eq)]
pub enum ColorMode {
    Grayscale,
    Indexed,
    Rgb,
}

/// The colour model of an image. `resolution` counts the bits of one channel,
/// or of one palette index where the mode is `Indexed`.
#[derive(Clone, Copy, Debug, PartialEq, Eq)]
pub struct Color {
    pub alpha_channel: bool,
    pub mode: ColorMode,
    pub resolution: u8,
}

impl ImageMeta {
    /// Whether the container declares more than a single frame.
    pub fn is_animation(&self) -> (animated: bool)
        ensures
            animated == (self.animation_frames is Some),
    {
        self.animation_frames.is_some()
    }
}

/// The frame count of a record: present only from `least` frames on.
pub open spec fn frames_from(count: nat, least: nat) -> Option<usize> {
    if count >= least {
        Some(count as usize)
    } else {
        None
    }
}

} // verus!
