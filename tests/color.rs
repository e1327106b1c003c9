use style_invalidation::color::{
    Absolute, AbsoluteColor, Color, ColorPropertyValue, ColorScheme, ColorSchemeFlags,
    ForcedColorAdjust, ForcedColors, LightDark, PrintColorAdjust, SystemColor,
};

fn opaque_red() -> AbsoluteColor {
    AbsoluteColor { red: 255, green: 0, blue: 0, alpha: 255 }
}

#[test]
fn keywords_and_system_colors_are_honored_in_forced_colors() {
    assert!(Color::currentcolor().honored_in_forced_colors_mode(false));
    assert!(Color::System(SystemColor::Canvastext).honored_in_forced_colors_mode(false));
    assert!(!Color::InheritFromBodyQuirk.honored_in_forced_colors_mode(true));
}

#[test]
fn absolute_colors_are_honored_only_when_transparent_and_allowed() {
    assert!(Color::transparent().honored_in_forced_colors_mode(true));
    assert!(!Color::transparent().honored_in_forced_colors_mode(false));
    assert!(!Color::from_absolute_color(opaque_red()).honored_in_forced_colors_mode(true));
}

#[test]
fn light_dark_needs_both_branches_honored() {
    let both = Color::LightDark(Box::new(LightDark {
        light: Color::CurrentColor,
        dark: Color::System(SystemColor::Canvas),
    }));
    assert!(both.honored_in_forced_colors_mode(false));
    let one = Color::LightDark(Box::new(LightDark {
        light: Color::CurrentColor,
        dark: Color::from_absolute_color(opaque_red()),
    }));
    assert!(!one.honored_in_forced_colors_mode(true));
}

#[test]
fn resolve_to_absolute_only_for_absolute_colors() {
    assert_eq!(Color::from_absolute_color(opaque_red()).resolve_to_absolute(), Some(opaque_red()));
    assert_eq!(
        Color::transparent().resolve_to_absolute(),
        Some(AbsoluteColor { red: 0, green: 0, blue: 0, alpha: 0 })
    );
    assert_eq!(Color::currentcolor().resolve_to_absolute(), None);
    assert_eq!(Color::System(SystemColor::Field).resolve_to_absolute(), None);
    let authored = Color::Absolute(Box::new(Absolute {
        color: opaque_red(),
        authored: Some("red".to_string()),
    }));
    assert_eq!(authored.resolve_to_absolute(), Some(opaque_red()));
    let value = ColorPropertyValue(Color::currentcolor());
    assert!(matches!(value.0, Color::CurrentColor));
}

#[test]
fn color_scheme_bits() {
    let normal = ColorScheme::normal();
    assert_eq!(normal.raw_bits(), 0);
    assert!(normal.idents.is_empty());
    let mut bits = ColorSchemeFlags::empty();
    assert!(bits.is_empty());
    bits.insert(ColorSchemeFlags::light());
    bits.insert(ColorSchemeFlags::only());
    assert_eq!(bits.bits(), 5);
    assert!(bits.intersects(ColorSchemeFlags::only()));
    assert!(!bits.intersects(ColorSchemeFlags::dark()));
    let scheme = ColorScheme { idents: vec!["light".to_string()], bits };
    assert_eq!(scheme.raw_bits(), 5);
}

#[test]
fn forced_colors_active() {
    assert!(ForcedColors::Active.is_active());
    assert!(!ForcedColors::Requested.is_active());
    assert!(!ForcedColors::NotForced.is_active());
    assert_ne!(ForcedColorAdjust::Auto, ForcedColorAdjust::NoAdjust);
    assert_ne!(PrintColorAdjust::Economy, PrintColorAdjust::Exact);
}
