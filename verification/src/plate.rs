//! The backplate that a card is drawn on: its style, from the settings of this
//! program and those shared by all, and the fill of one plate.
use crate::single::Single;
use vstd::prelude::*;

verus! {

/// A color: three components and the alpha.
#[derive(Clone, Copy, Debug, PartialEq, Eq, Structural)]
pub struct Color {
    pub red: Single,
    pub green: Single,
    pub blue: Single,
    pub alpha: Single,
}

/// The style of the backplate. A border comes with its thickness.
#[derive(Clone, Copy, Debug)]
pub struct PlateStyle {
    pub fill: Color,
    pub border: Option<(Color, Single)>,
    pub radius: Single,
    pub blur: bool,
    pub opacity: Single,
}

/// What the configuration says of the backplate. `color` and `border_color`
/// are this program's own, where they are set; `shared_color` and
/// `shared_border_color` are those of all programs; `default_color` stands in
/// where neither is set. The rest has already been resolved to one value each.
#[derive(Clone, Copy, Debug)]
pub struct PlateSettings {
    pub color: Option<Color>,
    pub shared_color: Option<Color>,
    pub default_color: Color,
    pub border_color: Option<Color>,
    pub shared_border_color: Option<Color>,
    pub border_thickness: Single,
    pub corner_radius: Single,
    pub blur: bool,
    pub opacity: Single,
}

/// The first of two values that is there.
pub open spec fn first_set(own: Option<Color>, shared: Option<Color>) -> Option<Color> {
    if own is Some {
        own
    } else {
        shared
    }
}

impl PlateSettings {
    /// The border color, this program's own before the shared one.
    pub open spec fn chosen_border(self) -> Option<Color> {
        first_set(self.border_color, self.shared_border_color)
    }

    /// The style that the settings come to.
    pub open spec fn style(self) -> PlateStyle {
        PlateStyle {
            fill: match first_set(self.color, self.shared_color) {
                Some(color) => color,
                None => self.default_color,
            },
            border: match self.chosen_border() {
                Some(color) => if self.border_thickness.positive() {
                    Some((color, self.border_thickness))
                } else {
                    None
                },
                None => None,
            },
            radius: self.corner_radius,
            blur: self.blur,
            opacity: self.opacity,
        }
    }
}

/// The style that the settings come to: this program's own colors before the
/// shared ones, and a border only where it has a color and is thicker than
/// nothing.
pub fn plate_style(settings: &PlateSettings) -> (style: PlateStyle)
    ensures
        style == settings.style(),
{
    let fill: Color = match settings.color {
        Some(color) => color,
        None => match settings.shared_color {
            Some(color) => color,
            None => settings.default_color,
        },
    };
    let border_color: Option<Color> = match settings.border_color {
        Some(color) => Some(color),
        None => settings.shared_border_color,
    };
    let border: Option<(Color, Single)> = match border_color {
        Some(color) => if settings.border_thickness.is_positive() {
            Some((color, settings.border_thickness))
        } else {
            None
        },
        None => None,
    };
    PlateStyle {
        fill,
        border,
        radius: settings.corner_radius,
        blur: settings.blur,
        opacity: settings.opacity,
    }
}

impl PlateStyle {
    /// The fill of a plate: its opacity goes into the alpha, and an alpha with
    /// its sign bit set asks for the background to be blurred.
    pub open spec fn plate_fill(self) -> Color {
        let alpha = self.fill.alpha.product(self.opacity);
        Color {
            alpha: if self.blur {
                Single::with_sign(true, alpha.unsigned())
            } else {
                alpha
            },
            ..self.fill
        }
    }

    pub fn card_fill(&self) -> (fill: Color)
        ensures
            fill == self.plate_fill(),
    {
        let alpha: Single = self.fill.alpha.times(self.opacity);
        let alpha: Single = if self.blur {
            alpha.negative_of_abs()
        } else {
            alpha
        };
        Color { red: self.fill.red, green: self.fill.green, blue: self.fill.blue, alpha }
    }
}

/// The three color components of a gamma-encoded color as bytes: the integer
/// part of 255 times each.
pub fn srgb_u8(srgb: &Color) -> (bytes: (u8, u8, u8))
    ensures
        bytes.0 == component_byte(srgb.red),
        bytes.1 == component_byte(srgb.green),
        bytes.2 == component_byte(srgb.blue),
{
    let full: Single = Single::from_i64(255);
    let red: u8 = srgb.red.times(full).to_integer(255) as u8;
    let green: u8 = srgb.green.times(full).to_integer(255) as u8;
    let blue: u8 = srgb.blue.times(full).to_integer(255) as u8;
    (red, green, blue)
}

/// 255 times a component, cut off to a byte.
pub open spec fn component_byte(x: Single) -> int {
    x.product(Single::of_int(255)).integer_part(255)
}

/// A blurred plate is marked by a negative alpha of the same size; other plates
/// are not, whatever opacity from zero up they have.
pub proof fn negative_alpha_marks_blur(plate: PlateStyle)
    ensures
        plate.blur ==> plate.plate_fill().alpha.negative(),
        plate.plate_fill().alpha.unsigned() == plate.fill.alpha.product(plate.opacity).unsigned(),
        !plate.blur && !plate.fill.alpha.negative() && !plate.opacity.negative()
            ==> !plate.plate_fill().alpha.negative(),
{
    let alpha: Single = plate.fill.alpha.product(plate.opacity);
    crate::single::lemma_with_sign(true, alpha.unsigned());
    if !plate.fill.alpha.negative() && !plate.opacity.negative() {
        crate::single::lemma_product_sign(plate.fill.alpha, plate.opacity);
    }
}

/// A color of this program's own comes before the shared one, and that before
/// the one that stands in; so it is with the border, which has nothing that
/// stands in, and which is there just where its thickness is above zero. The
/// rest is taken over as it is.
pub proof fn own_settings_come_first(s: PlateSettings)
    ensures
        s.color matches Some(color) ==> s.style().fill == color,
        s.color is None ==> (s.shared_color matches Some(color) ==> s.style().fill == color),
        s.color is None && s.shared_color is None ==> s.style().fill == s.default_color,
        s.border_color is None && s.shared_border_color is None ==> s.style().border is None,
        s.border_thickness.is_nan() || s.border_thickness.value() <= 0 ==> s.style().border is None,
        !s.border_thickness.is_nan() && s.border_thickness.value() > 0 ==> {
            &&& s.border_color matches Some(color) ==> s.style().border == Some(
                (color, s.border_thickness),
            )
            &&& s.border_color is None ==> (s.shared_border_color matches Some(color)
                ==> s.style().border == Some((color, s.border_thickness)))
        },
        s.style().radius == s.corner_radius,
        s.style().blur == s.blur,
        s.style().opacity == s.opacity,
{
    crate::single::order_is_by_value(s.border_thickness, s.border_thickness);
}

/// The fill of a plate has the color of its style. Its alpha is the product of
/// the style's and the opacity, whose sign a blur turns negative.
pub proof fn fill_keeps_its_color(plate: PlateStyle)
    ensures
        plate.plate_fill().red == plate.fill.red,
        plate.plate_fill().green == plate.fill.green,
        plate.plate_fill().blue == plate.fill.blue,
        ({
            let alpha = plate.fill.alpha.product(plate.opacity);
            &&& !plate.blur ==> plate.plate_fill().alpha == alpha
            &&& plate.blur && alpha.negative() ==> plate.plate_fill().alpha == alpha
            &&& plate.blur ==> {
                &&& plate.plate_fill().alpha.negative()
                &&& plate.plate_fill().alpha.unsigned() == alpha.unsigned()
            }
        }),
{
    negative_alpha_marks_blur(plate);
    crate::single::sign_and_encoding_make_a_number(
        plate.fill.alpha.product(plate.opacity),
        true,
    );
}

/// A component becomes the largest byte that is not above 255 times it; what
/// is no number, or not above zero, becomes zero.
pub proof fn component_is_cut_off_to_a_byte(x: Single)
    ensures
        ({
            let p = x.product(Single::of_int(255));
            let b = component_byte(x);
            &&& 0 <= b <= 255
            &&& p.is_nan() || p.value() <= 0 ==> b == 0
            &&& !p.is_nan() && b > 0 ==> b * vstd::arithmetic::power2::pow2(149) <= p.value()
            &&& !p.is_nan() && b < 255 ==> p.value() < (b + 1) * vstd::arithmetic::power2::pow2(149)
        }),
{
    crate::single::integer_part_is_cut_off(x.product(Single::of_int(255)), 255);
}

} // verus!
