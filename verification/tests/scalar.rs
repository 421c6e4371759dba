use colormap::{get_color, get_color_custom, MAP_COLORS, MAP_COLORS_LENGTH};

fn by_floor_division(value: u16, palette: &[u32]) -> u32 {
    let segments: i64 = palette.len() as i64 - 1;
    let position: i64 = value as i64 * segments;
    let k: usize = position.div_euclid(65536) as usize;
    let fraction: i64 = position.rem_euclid(65536);
    let mut levels: [i64; 3] = [0; 3];
    for (slot, shift) in [24u32, 16, 8].into_iter().enumerate() {
        let from: i64 = ((palette[k] >> shift) & 0xFF) as i64;
        let to: i64 = ((palette[k + 1] >> shift) & 0xFF) as i64;
        levels[slot] = from + ((to - from) * fraction).div_euclid(65536);
    }
    (0xFF00_0000 + levels[2] * 65536 + levels[1] * 256 + levels[0]) as u32
}

#[test]
fn default_palette_is_black_blue_cyan_green_yellow_red_white() {
    assert_eq!(MAP_COLORS_LENGTH, 7);
    assert_eq!(
        MAP_COLORS,
        [
            0x0000_00FF,
            0x0000_FFFF,
            0x00FF_FFFF,
            0x00FF_00FF,
            0xFFFF_00FF,
            0xFF00_00FF,
            0xFFFF_FFFF
        ]
    );
}

#[test]
fn default_gradient_starts_at_opaque_black() {
    assert_eq!(get_color(0), 0xFF00_0000);
    assert_eq!(get_color(0).to_le_bytes(), [0, 0, 0, 255]);
}

#[test]
fn default_gradient_ends_one_level_short_of_white() {
    assert_eq!(get_color(65535), 0xFFFE_FEFF);
    assert_eq!(get_color(65535).to_le_bytes(), [255, 254, 254, 255]);
}

#[test]
fn default_gradient_halfway_from_green_to_yellow() {
    let color: u32 = get_color(38229);
    assert_eq!(color, 0xFF00_FF7F);
    let [r, g, b, a] = color.to_le_bytes();
    assert_eq!((r, g, b, a), (127, 255, 0, 255));
}

#[test]
fn default_gradient_at_chosen_values() {
    assert_eq!(get_color(1), 0xFF00_0000);
    assert_eq!(get_color(257), 0xFF05_0000);
    assert_eq!(get_color(5000), 0xFF74_0000);
    assert_eq!(get_color(10922), 0xFFFE_0000);
    assert_eq!(get_color(12345), 0xFFFF_2100);
    assert_eq!(get_color(30000), 0xFF40_FF00);
    assert_eq!(get_color(60000), 0xFF7D_7DFF);
    assert_eq!(get_color(65534), 0xFFFE_FEFF);
}

#[test]
fn default_gradient_at_the_values_of_its_stops() {
    assert_eq!(get_color(0), 0xFF00_0000);
    assert_eq!(get_color(10923), 0xFFFF_0000);
    assert_eq!(get_color(21845), 0xFFFF_FE00);
    assert_eq!(get_color(32768), 0xFF00_FF00);
    assert_eq!(get_color(43690), 0xFF00_FFFE);
    assert_eq!(get_color(54613), 0xFF00_00FF);
    assert_eq!(get_color(65535), 0xFFFE_FEFF);
}

#[test]
fn default_gradient_matches_floor_division_everywhere() {
    for value in 0..=u16::MAX {
        assert_eq!(get_color(value), by_floor_division(value, &MAP_COLORS));
    }
}

#[test]
fn default_gradient_is_the_custom_gradient_over_the_default_palette() {
    for value in (0..=u16::MAX).step_by(7) {
        assert_eq!(get_color(value), get_color_custom(value, MAP_COLORS));
    }
    assert_eq!(get_color(65535), get_color_custom(65535, MAP_COLORS));
}

#[test]
fn custom_gradient_of_two_stops() {
    let palette: [u32; 2] = [0x10_20_30_40, 0x50_60_70_80];
    assert_eq!(get_color_custom(0, palette), 0xFF30_2010);
    assert_eq!(get_color_custom(1, palette), 0xFF30_2010);
    assert_eq!(get_color_custom(1024, palette), 0xFF31_2111);
    assert_eq!(get_color_custom(32768, palette), 0xFF50_4030);
    assert_eq!(get_color_custom(65535, palette), 0xFF6F_5F4F);
}

#[test]
fn custom_gradient_with_falling_channels() {
    let palette: [u32; 3] = [0xC8_64_0A_FF, 0x0A_64_C8_00, 0xFF_FF_FF_7F];
    assert_eq!(get_color_custom(0, palette), 0xFF0A_64C8);
    assert_eq!(get_color_custom(16384, palette), 0xFF69_6469);
    assert_eq!(get_color_custom(32767, palette), 0xFFC7_640A);
    assert_eq!(get_color_custom(32768, palette), 0xFFC8_640A);
    assert_eq!(get_color_custom(49152, palette), 0xFFE3_B184);
    assert_eq!(get_color_custom(65535, palette), 0xFFFE_FEFE);
}

#[test]
fn custom_gradient_matches_floor_division_everywhere() {
    let two: [u32; 2] = [0xFF_00_80_00, 0x00_FF_7F_FF];
    let three: [u32; 3] = [0xC8_64_0A_FF, 0x0A_64_C8_00, 0xFF_FF_FF_7F];
    let five: [u32; 5] = [0x01_02_03_04, 0xFE_FD_FC_FB, 0x00_00_00_00, 0xFF_FF_FF_FF, 0x80_40_20_10];
    for value in 0..=u16::MAX {
        assert_eq!(get_color_custom(value, two), by_floor_division(value, &two));
        assert_eq!(get_color_custom(value, three), by_floor_division(value, &three));
        assert_eq!(get_color_custom(value, five), by_floor_division(value, &five));
    }
}

#[test]
fn custom_gradient_of_a_constant_palette_is_constant() {
    let palette: [u32; 4] = [0x33_66_99_CC; 4];
    for value in (0..=u16::MAX).step_by(251) {
        assert_eq!(get_color_custom(value, palette), 0xFF99_6633);
    }
    assert_eq!(get_color_custom(65535, palette), 0xFF99_6633);
}

#[test]
fn custom_gradient_over_more_stops_than_values() {
    let mut palette: [u32; 70001] = [0; 70001];
    for (i, stop) in palette.iter_mut().enumerate() {
        *stop = ((i % 256) as u32) << 24 | ((i / 256) as u32) << 16 | 0x0000_55AA;
    }
    for value in [0u16, 1, 2, 255, 256, 4660, 32768, 65534, 65535] {
        assert_eq!(get_color_custom(value, palette), by_floor_division(value, &palette));
    }
    assert_eq!(get_color_custom(0, palette), 0xFF55_0000);
    assert_eq!(get_color_custom(65535, palette), by_floor_division(65535, &palette));
}
