use vstd::prelude::*;

verus! {

/// Search radius used when none is configured.
pub const DEF_RADIUS: usize = 64;

/// Height multiplier used when none is configured, in thousandths (1.0).
pub const DEF_HEIGHT_MULT_MILLI: u32 = 1000;

/// Largest search radius the fixed-point arithmetic is sized for.
pub const MAX_RADIUS: usize = 1048576;

/// Largest height multiplier, in thousandths, the fixed-point arithmetic is sized for.
pub const MAX_HEIGHT_MULT_MILLI: u32 = 1048576;

/// Length units in one grid cell. Every coordinate and height is an integer in
/// these units: `pix / 255 * radius * mult` cells is `2 * pix * radius * mult_milli`
/// units, so heights, cell centres and distances are all exact.
pub const UNITS_PER_CELL: i64 = 510000;

/// Half a grid cell, in length units.
pub const HALF_CELL: i64 = 255000;

/// How the height field continues beyond the image's edges.
#[derive(Clone, Copy, Debug, PartialEq, Eq, Structural)]
pub enum ImgRepeat {
    /// The image tiles the plane periodically.
    Repeat,
    /// The edge values are replicated outward.
    Clamp,
}

/// Where the capture point sits above the height field.
#[derive(Clone, Copy, Debug, PartialEq, Eq, Structural)]
pub enum CaptureHeight {
    /// A pixel value chosen by the user.
    UserDefined(u8),
    /// The largest pixel value of the image.
    Generated,
}

/// Immutable configuration of one run.
#[derive(Clone, Copy, Debug)]
pub struct GenSettings {
    pub radius: usize,
    pub repeat: ImgRepeat,
    pub height_setting: CaptureHeight,
    /// The height multiplier in thousandths (1000 stands for 1.0).
    pub img_height_mult_milli: u32,
}

/// Height, in length units, of a pixel value under a radius and a multiplier:
/// `pix / 255 * radius * (mult_milli / 1000)` cells.
pub open spec fn height_units(pix: int, radius: int, mult_milli: int) -> int {
    2 * pix * radius * mult_milli
}

impl GenSettings {
    /// The settings lie within the sizes the fixed-point arithmetic is made for.
    pub open spec fn wf(&self) -> bool {
        &&& self.radius <= MAX_RADIUS
        &&& self.img_height_mult_milli <= MAX_HEIGHT_MULT_MILLI
    }

    /// Height of a pixel value under these settings, in length units.
    pub open spec fn height_of(&self, pix: int) -> int {
        height_units(pix, self.radius as int, self.img_height_mult_milli as int)
    }

    pub fn new_from_values(values: (usize, ImgRepeat, CaptureHeight, u32)) -> (r: GenSettings)
        ensures
            r.radius == values.0,
            r.repeat == values.1,
            r.height_setting == values.2,
            r.img_height_mult_milli == values.3,
    {
        GenSettings {
            radius: values.0,
            repeat: values.1,
            height_setting: values.2,
            img_height_mult_milli: values.3,
        }
    }

    pub fn new() -> (r: GenSettings)
        ensures
            r.radius == DEF_RADIUS,
            r.repeat == ImgRepeat::Repeat,
            r.height_setting == CaptureHeight::Generated,
            r.img_height_mult_milli == DEF_HEIGHT_MULT_MILLI,
            r.wf(),
    {
        GenSettings {
            radius: DEF_RADIUS,
            repeat: ImgRepeat::Repeat,
            height_setting: CaptureHeight::Generated,
            img_height_mult_milli: DEF_HEIGHT_MULT_MILLI,
        }
    }

    /// Whether the settings lie within the supported sizes.
    pub fn is_valid(&self) -> (r: bool)
        ensures
            r == self.wf(),
    {
        self.radius <= MAX_RADIUS && self.img_height_mult_milli <= MAX_HEIGHT_MULT_MILLI
    }
}

impl ImgRepeat {
    /// The policy picked from a numbered menu: 1 repeats, 2 clamps, anything
    /// else (or nothing) falls back to repeating.
    pub fn from_choice(choice: Option<u8>) -> (r: ImgRepeat)
        ensures
            r == (if choice == Some(2u8) { ImgRepeat::Clamp } else { ImgRepeat::Repeat }),
    {
        match choice {
            Some(2) => ImgRepeat::Clamp,
            _ => ImgRepeat::Repeat,
        }
    }
}

impl CaptureHeight {
    /// A user value when one was given, otherwise the generated height.
    pub fn from_value(value: Option<u8>) -> (r: CaptureHeight)
        ensures
            r == (match value {
                Some(v) => CaptureHeight::UserDefined(v),
                None => CaptureHeight::Generated,
            }),
    {
        match value {
            Some(v) => CaptureHeight::UserDefined(v),
            None => CaptureHeight::Generated,
        }
    }
}

} // verus!
