use colormap::{blue, get_color, get_color_custom, green, locate, pix, red, MAP_COLORS};

fn shown(stop: u32) -> u32 {
    pix(red(stop), green(stop), blue(stop))
}

fn channels(pixel: u32) -> (u32, u32, u32) {
    (pixel & 0xFF, (pixel >> 8) & 0xFF, (pixel >> 16) & 0xFF)
}

fn stop_value(k: u64, segments: u64) -> u16 {
    ((2 * k * 65535 + segments) / (2 * segments)) as u16
}

#[test]
fn value_zero_shows_the_first_stop() {
    assert_eq!(get_color(0), shown(MAP_COLORS[0]));
    assert_eq!(get_color_custom(0, [0x12_34_56_78, 0x9A_BC_DE_F0]), 0xFF56_3412);
    assert_eq!(get_color_custom(0, [0xFF_FF_FF_00, 0, 0]), 0xFFFF_FFFF);
    assert_eq!(get_color_custom(0, [0x01_00_00_00, 0xFF_FF_FF_FF, 0, 7, 9]), 0xFF00_0001);
}

#[test]
fn value_zero_equals_a_first_stop_that_is_its_own_pixel() {
    assert_eq!(get_color_custom(0, [0xFF_00_00_FF, 0x00_00_00_00]), 0xFF00_00FF);
    assert_eq!(get_color_custom(0, [0xFF_5A_5A_FF, 0x00_00_00_00]), 0xFF5A_5AFF);
    assert_eq!(get_color_custom(0, [0xFF_FF_FF_FF, 0x12_34_56_78]), 0xFFFF_FFFF);
    assert_ne!(get_color(0), MAP_COLORS[0]);
}

#[test]
fn greatest_value_shows_a_last_stop_into_which_no_channel_rises() {
    assert_eq!(get_color_custom(65535, [0xFF_FF_FF_FF, 0x00_00_00_00]), 0xFF00_0000);
    assert_eq!(get_color_custom(65535, [0x80_90_A0_00, 0x80_40_10_00]), 0xFF10_4080);
    assert_eq!(get_color_custom(65535, [0, 0xFF_FF_FF_FF, 0x0A_0B_0C_0D]), 0xFF0C_0B0A);
}

#[test]
fn greatest_value_ends_one_short_on_a_rising_channel() {
    assert_eq!(get_color_custom(65535, [0x00_00_00_00, 0xFF_FF_FF_FF]), 0xFFFE_FEFE);
    assert_eq!(get_color_custom(65535, [0x10_FF_30_00, 0x11_80_30_00]), 0xFF30_8010);
    assert_eq!(get_color(65535), 0xFFFE_FEFF);
    assert_ne!(get_color(65535), shown(MAP_COLORS[6]));
}

#[test]
fn stop_values_round_to_the_nearest_scalar() {
    assert_eq!(stop_value(0, 6), 0);
    assert_eq!(stop_value(1, 6), 10923);
    assert_eq!(stop_value(2, 6), 21845);
    assert_eq!(stop_value(3, 6), 32768);
    assert_eq!(stop_value(4, 6), 43690);
    assert_eq!(stop_value(5, 6), 54613);
    assert_eq!(stop_value(6, 6), 65535);
}

#[test]
fn each_stop_value_shows_its_stop_or_one_level_below() {
    for k in 0..7usize {
        let (r, g, b) = channels(get_color(stop_value(k as u64, 6)));
        let stop: u32 = MAP_COLORS[k];
        assert!(red(stop) <= r + 1 && r <= red(stop));
        assert!(green(stop) <= g + 1 && g <= green(stop));
        assert!(blue(stop) <= b + 1 && b <= blue(stop));
    }
}

#[test]
fn each_stop_value_of_a_long_palette_shows_its_stop_or_one_level_below() {
    let mut palette: [u32; 172] = [0; 172];
    for (i, stop) in palette.iter_mut().enumerate() {
        let level: u32 = if i % 2 == 0 { 255 } else { 0 };
        *stop = level << 24 | (255 - level) << 16 | ((i as u32 * 37) % 256) << 8;
    }
    for k in 0..172usize {
        let (r, g, b) = channels(get_color_custom(stop_value(k as u64, 171), palette));
        let stop: u32 = palette[k];
        assert!(red(stop) <= r + 1 && r <= red(stop));
        assert!(green(stop) <= g + 1 && g <= green(stop));
        assert!(blue(stop) <= b + 1 && b <= blue(stop));
    }
}

#[test]
fn a_palette_of_259_stops_can_end_two_levels_short() {
    let mut palette: [u32; 259] = [0; 259];
    palette[258] = 0xFF_FF_FF_00;
    assert_eq!(get_color_custom(65535, palette), 0xFFFD_FDFD);
}

#[test]
fn every_pixel_is_opaque_whatever_the_alpha_of_the_stops() {
    let palette: [u32; 3] = [0x11_22_33_00, 0x44_55_66_7F, 0x77_88_99_01];
    for value in 0..=u16::MAX {
        assert_eq!(get_color_custom(value, palette) >> 24, 0xFF);
        assert_eq!(get_color(value) >> 24, 0xFF);
    }
}

#[test]
fn red_never_falls_along_a_palette_whose_red_never_falls() {
    let palette: [u32; 5] = [0x00_FF_00_00, 0x10_00_FF_00, 0x10_80_00_00, 0xC0_00_10_00, 0xFF_FF_00_00];
    let mut before: u32 = 0;
    for value in 0..=u16::MAX {
        let (r, _, _) = channels(get_color_custom(value, palette));
        assert!(before <= r);
        before = r;
    }
    assert_eq!(before, 254);
}

#[test]
fn within_each_segment_of_the_default_gradient_channels_move_as_the_stops_do() {
    for value in 0..u16::MAX {
        let (segment, _) = locate(value, 6);
        let (after, _) = locate(value + 1, 6);
        if segment != after {
            continue;
        }
        let (from, to) = (MAP_COLORS[segment], MAP_COLORS[segment + 1]);
        let (r1, g1, b1) = channels(get_color(value));
        let (r2, g2, b2) = channels(get_color(value + 1));
        for (c1, c2, s1, s2) in [
            (r1, r2, red(from), red(to)),
            (g1, g2, green(from), green(to)),
            (b1, b2, blue(from), blue(to)),
        ] {
            assert!(s1 > s2 || c1 <= c2);
            assert!(s1 < s2 || c1 >= c2);
        }
    }
}

#[test]
fn within_a_segment_a_falling_channel_never_rises() {
    let palette: [u32; 2] = [0xF0_10_80_00, 0x0F_EF_80_00];
    let mut before: (u32, u32, u32) = (0xF0, 0x10, 0x80);
    for value in 0..=u16::MAX {
        let (r, g, b) = channels(get_color_custom(value, palette));
        assert!(r <= before.0);
        assert!(g >= before.1);
        assert_eq!(b, 0x80);
        before = (r, g, b);
    }
    assert_eq!(before, (0x0F, 0xEE, 0x80));
}

#[test]
fn every_value_finds_both_its_stops_in_the_shortest_palette() {
    let palette: [u32; 2] = [0x00_00_00_00, 0xFF_FF_FF_FF];
    for value in 0..=u16::MAX {
        let (r, g, b) = channels(get_color_custom(value, palette));
        let level: u32 = (255 * value as u32) >> 16;
        assert_eq!((r, g, b), (level, level, level));
    }
}
