use pixelsort::color::{Color, ColorComponent, ColorSpace, ColorSpaceMask, HUE_SECTOR, UNIT};

#[test]
fn component_names_parse() {
    assert_eq!(ColorComponent::from_str("Hue"), Ok(ColorComponent::Hue));
    assert_eq!(
        ColorComponent::from_str("Saturation"),
        Ok(ColorComponent::Saturation)
    );
    assert_eq!(
        ColorComponent::from_str("Lightness"),
        Ok(ColorComponent::Lightness)
    );
    assert_eq!(ColorComponent::from_str("Value"), Ok(ColorComponent::Value));
    assert_eq!(ColorComponent::from_str("Red"), Ok(ColorComponent::Red));
    assert_eq!(ColorComponent::from_str("Green"), Ok(ColorComponent::Green));
    assert_eq!(ColorComponent::from_str("Blue"), Ok(ColorComponent::Blue));
}

#[test]
fn component_bad_names_rejected() {
    assert_eq!(ColorComponent::from_str("hue"), Err(()));
    assert_eq!(ColorComponent::from_str(""), Err(()));
    assert_eq!(ColorComponent::from_str("Alpha"), Err(()));
    assert_eq!(ColorComponent::from_str("RedX"), Err(()));
}

#[test]
fn component_spaces() {
    assert_eq!(ColorComponent::Hue.color_space(), ColorSpace::HSL);
    assert_eq!(ColorComponent::Saturation.color_space(), ColorSpace::HSL);
    assert_eq!(ColorComponent::Lightness.color_space(), ColorSpace::HSL);
    assert_eq!(ColorComponent::Value.color_space(), ColorSpace::HSV);
    assert_eq!(ColorComponent::Red.color_space(), ColorSpace::RGB);
    assert_eq!(ColorComponent::Green.color_space(), ColorSpace::RGB);
    assert_eq!(ColorComponent::Blue.color_space(), ColorSpace::RGB);
}

#[test]
fn component_indices() {
    assert_eq!(ColorComponent::Hue.index(), 0);
    assert_eq!(ColorComponent::Saturation.index(), 1);
    assert_eq!(ColorComponent::Lightness.index(), 2);
    assert_eq!(ColorComponent::Value.index(), 2);
    assert_eq!(ColorComponent::Red.index(), 0);
    assert_eq!(ColorComponent::Green.index(), 1);
    assert_eq!(ColorComponent::Blue.index(), 2);
}

#[test]
fn mask_all_hsl() {
    let mask = ColorSpaceMask::from(["Hue", "Saturation", "Lightness"]);
    assert_eq!(mask.space, ColorSpace::HSL);
    assert_eq!(mask.components, [true, true, true]);
}

#[test]
fn mask_single_name() {
    let mask = ColorSpaceMask::from(["Lightness", "", ""]);
    assert_eq!(mask.space, ColorSpace::HSL);
    assert_eq!(mask.components, [false, false, true]);
}

#[test]
fn mask_cross_space_names_dropped() {
    let mask = ColorSpaceMask::from(["Red", "Hue", "Blue"]);
    assert_eq!(mask.space, ColorSpace::RGB);
    assert_eq!(mask.components, [true, false, true]);
}

#[test]
fn mask_space_from_first_valid_name() {
    // The first name fails to parse, so the space comes from the second;
    // "Red" then belongs to another space and is dropped.
    let mask = ColorSpaceMask::from(["bogus", "Value", "Red"]);
    assert_eq!(mask.space, ColorSpace::HSV);
    assert_eq!(mask.components, [false, false, true]);
}

#[test]
fn mask_skips_leading_invalid_name() {
    let mask = ColorSpaceMask::from(["junk", "Hue", ""]);
    assert_eq!(mask.space, ColorSpace::HSL);
    assert_eq!(mask.components, [true, false, false]);
}

#[test]
fn mask_all_invalid_is_default() {
    let mask = ColorSpaceMask::from(["x", "y", "z"]);
    assert_eq!(mask.space, ColorSpace::RGB);
    assert_eq!(mask.components, [false, false, false]);
}

#[test]
fn mask_hue_never_targets_hsv() {
    // Hue is tagged HSL only, so it is a cross-space name for an HSV mask.
    let mask = ColorSpaceMask::from(["Value", "Hue", "Saturation"]);
    assert_eq!(mask.space, ColorSpace::HSV);
    assert_eq!(mask.components, [false, false, true]);
}

#[test]
fn mask_default() {
    let mask: ColorSpaceMask = Default::default();
    assert_eq!(mask.space, ColorSpace::RGB);
    assert_eq!(mask.components, [false, false, false]);
}

#[test]
fn rgb_from_u8_scales_into_units() {
    let c = Color::rgb_from_u8(255, 0, 51);
    assert_eq!(c.space, ColorSpace::RGB);
    assert_eq!(c.components, [UNIT, 0, 51 * 2048]);
}

#[test]
fn to_u8_truncates_toward_zero() {
    let c = Color {
        space: ColorSpace::RGB,
        components: [UNIT - 1, 0, UNIT],
    };
    assert_eq!(c.to_u8(), [254, 0, 255]);
}

#[test]
fn byte_round_trip_is_exact() {
    for v in 0u16..=255 {
        let c = Color::rgb_from_u8(v as u8, 255 - v as u8, (v / 2) as u8);
        assert_eq!(c.to_u8(), [v as u8, 255 - v as u8, (v / 2) as u8]);
    }
}

#[test]
fn primary_colors_to_hsl() {
    let sector = 60 * UNIT;
    let red = Color::rgb_from_u8(255, 0, 0).to_space(ColorSpace::HSL);
    assert_eq!(red.components, [0, UNIT, UNIT / 2]);
    let green = Color::rgb_from_u8(0, 255, 0).to_space(ColorSpace::HSL);
    assert_eq!(green.components, [2 * sector, UNIT, UNIT / 2]);
    let blue = Color::rgb_from_u8(0, 0, 255).to_space(ColorSpace::HSL);
    assert_eq!(blue.components, [4 * sector, UNIT, UNIT / 2]);
}

#[test]
fn red_to_hsv() {
    let red = Color::rgb_from_u8(255, 0, 0).to_space(ColorSpace::HSV);
    assert_eq!(red.components, [0, UNIT, UNIT]);
}

#[test]
fn red_hsl_to_hsv_through_pivot() {
    let red_hsl = Color::rgb_from_u8(255, 0, 0).to_space(ColorSpace::HSL);
    let red_hsv = red_hsl.to_space(ColorSpace::HSV);
    assert_eq!(red_hsv.space, ColorSpace::HSV);
    assert_eq!(red_hsv.components, [0, UNIT, UNIT]);
}

#[test]
fn gray_has_no_hue_or_saturation() {
    let gray = Color::rgb_from_u8(100, 100, 100).to_space(ColorSpace::HSL);
    assert_eq!(gray.components[0], 0);
    assert_eq!(gray.components[1], 0);
    assert_eq!(gray.components[2], 100 * 2048);
}

#[test]
fn same_space_conversion_is_identity() {
    let c = Color::rgb_from_u8(12, 200, 77);
    let same = c.to_space(ColorSpace::RGB);
    assert_eq!(same.space, c.space);
    assert_eq!(same.components, c.components);
}

#[test]
fn round_trip_through_hsl_within_one() {
    for r in (0u16..=255).step_by(17) {
        for g in (0u16..=255).step_by(17) {
            for b in (0u16..=255).step_by(17) {
                let back = Color::rgb_from_u8(r as u8, g as u8, b as u8)
                    .to_space(ColorSpace::HSL)
                    .to_space(ColorSpace::RGB)
                    .to_u8();
                let expect = [r as i32, g as i32, b as i32];
                for i in 0..3 {
                    assert!(
                        (back[i] as i32 - expect[i]).abs() <= 1,
                        "HSL round trip of ({}, {}, {}) gave {:?}",
                        r,
                        g,
                        b,
                        back
                    );
                }
            }
        }
    }
}

#[test]
fn round_trip_through_hsv_within_one() {
    for r in (0u16..=255).step_by(17) {
        for g in (0u16..=255).step_by(17) {
            for b in (0u16..=255).step_by(17) {
                let back = Color::rgb_from_u8(r as u8, g as u8, b as u8)
                    .to_space(ColorSpace::HSV)
                    .to_space(ColorSpace::RGB)
                    .to_u8();
                let expect = [r as i32, g as i32, b as i32];
                for i in 0..3 {
                    assert!(
                        (back[i] as i32 - expect[i]).abs() <= 1,
                        "HSV round trip of ({}, {}, {}) gave {:?}",
                        r,
                        g,
                        b,
                        back
                    );
                }
            }
        }
    }
}

#[test]
fn hsv_anchored_round_trip_recovers_value_exactly() {
    for hd in (0..360).step_by(15) {
        for si in 0..=8 {
            for vi in 0..=8 {
                let h = hd as i64 * UNIT;
                let s = si * UNIT / 8;
                let v = vi * UNIT / 8;
                let c = Color {
                    space: ColorSpace::HSV,
                    components: [h, s, v],
                };
                let back = c.to_space(ColorSpace::RGB).to_space(ColorSpace::HSV);
                assert_eq!(back.components[2], v);
            }
        }
    }
}

#[test]
fn hsl_anchored_round_trip_recovers_lightness_exactly() {
    for hd in (0..360).step_by(15) {
        for si in 0..=8 {
            for li in 0..=8 {
                let h = hd as i64 * UNIT;
                let s = si * UNIT / 8;
                let l = li * UNIT / 8;
                let c = Color {
                    space: ColorSpace::HSL,
                    components: [h, s, l],
                };
                let back = c.to_space(ColorSpace::RGB).to_space(ColorSpace::HSL);
                assert_eq!(back.components[2], l);
            }
        }
    }
}

fn hue_distance(a: i64, b: i64) -> i64 {
    let full = 360 * UNIT;
    let diff = ((a - b) % full + full) % full;
    diff.min(full - diff)
}

#[test]
fn hsv_anchored_round_trip_away_from_singularities() {
    // Away from the dark corner the hue and saturation come back within a
    // sliver: the hue error scales inversely with the chroma.
    for hd in (0..360).step_by(15) {
        for si in 2..=7 {
            for vi in 2..=7 {
                let h = hd as i64 * UNIT;
                let s = si * UNIT / 8;
                let v = vi * UNIT / 8;
                let c = Color {
                    space: ColorSpace::HSV,
                    components: [h, s, v],
                };
                let back = c.to_space(ColorSpace::RGB).to_space(ColorSpace::HSV);
                let chroma = v * s / UNIT;
                assert!(back.components[1] <= s);
                assert!(s - back.components[1] <= 64);
                assert!(
                    hue_distance(back.components[0], h) <= HUE_SECTOR / chroma + 256,
                    "hue {} came back as {}",
                    h,
                    back.components[0]
                );
            }
        }
    }
}

#[test]
fn hsl_anchored_round_trip_away_from_singularities() {
    for hd in (0..360).step_by(15) {
        for si in 2..=7 {
            for li in 2..=7 {
                let h = hd as i64 * UNIT;
                let s = si * UNIT / 8;
                let l = li * UNIT / 8;
                let c = Color {
                    space: ColorSpace::HSL,
                    components: [h, s, l],
                };
                let back = c.to_space(ColorSpace::RGB).to_space(ColorSpace::HSL);
                let headroom = UNIT - (2 * l - UNIT).abs();
                let chroma = headroom * s / UNIT;
                assert!((s - back.components[1]).abs() <= 64);
                assert!(
                    hue_distance(back.components[0], h) <= HUE_SECTOR / chroma + 256,
                    "hue {} came back as {}",
                    h,
                    back.components[0]
                );
            }
        }
    }
}

#[test]
fn zero_saturation_round_trip_resets_hue_only() {
    // The zero-chroma singularity: hue is undefined there, and the round
    // trip resets it to zero while keeping saturation and lightness.
    let c = Color {
        space: ColorSpace::HSL,
        components: [123 * UNIT, 0, UNIT / 3],
    };
    let back = c.to_space(ColorSpace::RGB).to_space(ColorSpace::HSL);
    assert_eq!(back.components, [0, 0, UNIT / 3]);
}

#[test]
fn hsl_hsv_cross_conversion_round_trip() {
    for r in (0u16..=255).step_by(51) {
        for g in (0u16..=255).step_by(51) {
            for b in (0u16..=255).step_by(51) {
                let back = Color::rgb_from_u8(r as u8, g as u8, b as u8)
                    .to_space(ColorSpace::HSL)
                    .to_space(ColorSpace::HSV)
                    .to_space(ColorSpace::RGB)
                    .to_u8();
                let expect = [r as i32, g as i32, b as i32];
                for i in 0..3 {
                    assert!(
                        (back[i] as i32 - expect[i]).abs() <= 1,
                        "HSL to HSV round trip of ({}, {}, {}) gave {:?}",
                        r,
                        g,
                        b,
                        back
                    );
                }
            }
        }
    }
}
