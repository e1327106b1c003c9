//! Specified color values, as far as style invalidation's callers read
//! them: keywords, absolute colors, `light-dark()`, system colors, and the
//! color-adjust properties.

use vstd::prelude::*;

verus! {

/// A color in 8-bit sRGB with alpha.
#[derive(Clone, Copy, Debug, PartialEq, Eq, Structural)]
pub struct AbsoluteColor {
    pub red: u8,
    pub green: u8,
    pub blue: u8,
    pub alpha: u8,
}

impl AbsoluteColor {
    /// Fully transparent black.
    pub fn transparent_black() -> (r: Self)
        ensures
            r == (AbsoluteColor { red: 0, green: 0, blue: 0, alpha: 0 }),
    {
        AbsoluteColor { red: 0, green: 0, blue: 0, alpha: 0 }
    }

    /// Whether the color is fully transparent.
    pub fn is_transparent(&self) -> (r: bool)
        ensures
            r == (self.alpha == 0),
    {
        self.alpha == 0
    }
}

/// An absolute color and the text its author wrote, if kept.
#[derive(Clone, Debug)]
pub struct Absolute {
    pub color: AbsoluteColor,
    pub authored: Option<String>,
}

/// The CSS system colors.
#[derive(Clone, Copy, Debug, PartialEq, Eq, Structural)]
pub enum SystemColor {
    Accentcolor,
    Accentcolortext,
    Activetext,
    Buttonborder,
    Buttonface,
    Buttontext,
    Canvas,
    Canvastext,
    Field,
    Fieldtext,
    Graytext,
    Highlight,
    Highlighttext,
    Linktext,
    Mark,
    Marktext,
    Selecteditem,
    Selecteditemtext,
    Visitedtext,
}

/// The two branches of `light-dark()`.
#[derive(Debug)]
pub struct LightDark {
    pub light: Color,
    pub dark: Color,
}

/// A specified color.
#[derive(Debug)]
pub enum Color {
    /// The `currentcolor` keyword.
    CurrentColor,
    /// An absolute color.
    Absolute(Box<Absolute>),
    /// A system color.
    System(SystemColor),
    /// A `light-dark()` color.
    LightDark(Box<LightDark>),
    /// The quirks-mode color inherited from the body.
    InheritFromBodyQuirk,
}

/// Whether a color may stay as authored in forced-colors mode.
pub open spec fn honored_spec(c: Color, allow_transparent: bool) -> bool
    decreases c,
{
    match c {
        Color::InheritFromBodyQuirk => false,
        Color::CurrentColor => true,
        Color::System(_) => true,
        Color::Absolute(a) => allow_transparent && a.color.alpha == 0,
        Color::LightDark(ld) => honored_spec(ld.light, allow_transparent) && honored_spec(
            ld.dark,
            allow_transparent,
        ),
    }
}

impl Color {
    /// Whether this color is honored in forced-colors mode: keywords and
    /// system colors are, an absolute color only when transparent ones are
    /// allowed and it is transparent, `light-dark()` when both branches are.
    pub fn honored_in_forced_colors_mode(&self, allow_transparent: bool) -> (r: bool)
        ensures
            r == honored_spec(*self, allow_transparent),
        decreases *self,
    {
        match self {
            Color::InheritFromBodyQuirk => false,
            Color::CurrentColor => true,
            Color::System(_) => true,
            Color::Absolute(absolute) => allow_transparent && absolute.color.is_transparent(),
            Color::LightDark(ld) => {
                ld.light.honored_in_forced_colors_mode(allow_transparent)
                    && ld.dark.honored_in_forced_colors_mode(allow_transparent)
            },
        }
    }

    /// The `currentcolor` value.
    pub fn currentcolor() -> (r: Self)
        ensures
            (r is CurrentColor),
    {
        Color::CurrentColor
    }

    /// The `transparent` value: transparent black, with no authored text.
    pub fn transparent() -> (r: Self)
        ensures
            (r is Absolute),
            r->Absolute_0.color == (AbsoluteColor { red: 0, green: 0, blue: 0, alpha: 0 }),
            r->Absolute_0.authored.is_none(),
    {
        Self::from_absolute_color(AbsoluteColor::transparent_black())
    }

    /// A color from an absolute color, with no authored text.
    pub fn from_absolute_color(color: AbsoluteColor) -> (r: Self)
        ensures
            (r is Absolute),
            r->Absolute_0.color == color,
            r->Absolute_0.authored.is_none(),
    {
        Color::Absolute(Box::new(Absolute { color, authored: None }))
    }

    /// The absolute color this color is, if it is one.
    pub fn resolve_to_absolute(&self) -> (r: Option<AbsoluteColor>)
        ensures
            r == (match *self {
                Color::Absolute(a) => Some(a.color),
                _ => None::<AbsoluteColor>,
            }),
    {
        match self {
            Color::Absolute(c) => Some(c.color),
            _ => None,
        }
    }
}

/// The value of the `color` property.
#[derive(Debug)]
pub struct ColorPropertyValue(pub Color);

/// The keywords of `color-scheme` as bits: light, dark, only.
#[derive(Clone, Copy, Debug, PartialEq, Eq, Structural)]
pub struct ColorSchemeFlags(pub u8);

impl ColorSchemeFlags {
    /// No keyword.
    pub fn empty() -> (r: Self)
        ensures
            r.0 == 0,
    {
        ColorSchemeFlags(0)
    }

    /// `light`.
    pub fn light() -> (r: Self)
        ensures
            r.0 == 1,
    {
        ColorSchemeFlags(1)
    }

    /// `dark`.
    pub fn dark() -> (r: Self)
        ensures
            r.0 == 2,
    {
        ColorSchemeFlags(2)
    }

    /// `only`.
    pub fn only() -> (r: Self)
        ensures
            r.0 == 4,
    {
        ColorSchemeFlags(4)
    }

    /// The raw bits.
    pub fn bits(&self) -> (r: u8)
        ensures
            r == self.0,
    {
        self.0
    }

    /// Whether no keyword is set.
    pub fn is_empty(&self) -> (r: bool)
        ensures
            r == (self.0 == 0),
    {
        self.0 == 0
    }

    /// Adds the keywords of `other`.
    pub fn insert(&mut self, other: Self)
        ensures
            final(self).0 == old(self).0 | other.0,
    {
        self.0 = self.0 | other.0;
    }

    /// Whether this and `other` share a keyword.
    pub fn intersects(&self, other: Self) -> (r: bool)
        ensures
            r == (self.0 & other.0 != 0),
    {
        self.0 & other.0 != 0
    }
}

/// A `color-scheme` value: the names the author listed, and the known
/// keywords among them as bits.
#[derive(Clone, Debug)]
pub struct ColorScheme {
    pub idents: Vec<String>,
    pub bits: ColorSchemeFlags,
}

impl ColorScheme {
    /// The `normal` value: no names, no bits.
    pub fn normal() -> (r: Self)
        ensures
            r.idents@.len() == 0,
            r.bits.0 == 0,
    {
        ColorScheme { idents: Vec::new(), bits: ColorSchemeFlags::empty() }
    }

    /// The raw bits.
    pub fn raw_bits(&self) -> (r: u8)
        ensures
            r == self.bits.0,
    {
        self.bits.bits()
    }
}

/// `print-color-adjust`.
#[derive(Clone, Copy, Debug, PartialEq, Eq, Structural)]
pub enum PrintColorAdjust {
    /// Ignore backgrounds and darken text.
    Economy,
    /// Respect specified colors.
    Exact,
}

/// `forced-color-adjust`.
#[derive(Clone, Copy, Debug, PartialEq, Eq, Structural)]
pub enum ForcedColorAdjust {
    /// Adjust colors if needed.
    Auto,
    /// Respect specified colors (the `none` keyword).
    NoAdjust,
}

/// The values of the `forced-colors` media query.
#[derive(Clone, Copy, Debug, PartialEq, Eq, Structural)]
pub enum ForcedColors {
    /// Page colors are not forced (the `none` keyword).
    NotForced,
    /// Page colors would be forced in content.
    Requested,
    /// Page colors are forced.
    Active,
}

impl ForcedColors {
    /// Whether forced colors are active.
    pub fn is_active(self) -> (r: bool)
        ensures
            r == (self == ForcedColors::Active),
    {
        match self {
            ForcedColors::Active => true,
            _ => false,
        }
    }
}

} // verus!
