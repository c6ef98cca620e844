use no_utils::{
    channel_from_random, pick_color, ppm_header, ppm_row, rgb_from_random, to_ppm, Image, Noise, NoiseGenerator,
    Palette, PaletteNoiseGenerator, RandomNoiseGenerator, Rgb,
};

fn rgb(red: u8, green: u8, blue: u8) -> Rgb {
    Rgb { red, green, blue }
}

struct Counting {
    n: u8,
}

impl NoiseGenerator for Counting {
    fn next(&mut self) -> Rgb {
        self.n += 1;
        rgb(self.n, 0, 255)
    }
}

#[test]
fn hex_with_and_without_hash() {
    assert_eq!(Rgb::from_hex("#ff8000"), Some(rgb(255, 128, 0)));
    assert_eq!(Rgb::from_hex("FF8000"), Some(rgb(255, 128, 0)));
    assert_eq!(Rgb::from_hex("##0a0B0c"), Some(rgb(10, 11, 12)));
}

#[test]
fn hex_rejects_bad_text() {
    assert_eq!(Rgb::from_hex("#ff80"), None);
    assert_eq!(Rgb::from_hex(""), None);
    assert_eq!(Rgb::from_hex("gg0000"), None);
    assert_eq!(Rgb::from_hex("-f0000"), None);
    assert_eq!(Rgb::from_hex("ffé000"), None);
}

#[test]
fn hex_quirks() {
    assert_eq!(Rgb::from_hex("ff8000zz"), Some(rgb(255, 128, 0)));
    assert_eq!(Rgb::from_hex("+f0000"), Some(rgb(15, 0, 0)));
}

#[test]
fn palette_needs_a_colour() {
    assert!(Palette::new(Vec::new()).is_none());
    let p = Palette::new(vec![rgb(1, 2, 3), rgb(4, 5, 6)]).unwrap();
    assert_eq!(p.colors(), &[rgb(1, 2, 3), rgb(4, 5, 6)]);
    assert_eq!(p.clone().colors(), p.colors());
}

#[test]
fn channels_from_random_numbers() {
    assert_eq!(channel_from_random(0), 0);
    assert_eq!(channel_from_random(254), 254);
    assert_eq!(channel_from_random(255), 0);
    assert_eq!(channel_from_random(u32::MAX), 0);
    assert_eq!(rgb_from_random(256, 510, 1000), rgb(1, 0, 235));
}

#[test]
fn palette_pick() {
    let p = Palette::new(vec![rgb(1, 1, 1), rgb(2, 2, 2), rgb(3, 3, 3)]).unwrap();
    assert_eq!(pick_color(&p, 0), rgb(1, 1, 1));
    assert_eq!(pick_color(&p, 5), rgb(3, 3, 3));
    assert_eq!(pick_color(&p, u64::MAX), rgb(1, 1, 1));
}

#[test]
fn noise_rows() {
    let mut noise = Noise::new(3, 2, Counting { n: 0 });
    assert_eq!(noise.width(), 3);
    assert_eq!(noise.height(), 2);
    let mut row = noise.next().unwrap();
    assert_eq!(row.columns_left(), 3);
    assert_eq!(row.next(), Some(rgb(1, 0, 255)));
    assert_eq!(row.columns_left(), 2);
    assert_eq!(row.into_pixels(), vec![rgb(2, 0, 255), rgb(3, 0, 255)]);
    assert_eq!(noise.next_row(), Some(vec![rgb(4, 0, 255), rgb(5, 0, 255), rgb(6, 0, 255)]));
    assert!(noise.next().is_none());
}

#[test]
fn ppm_text() {
    assert_eq!(ppm_header(3, 2), b"P3 3 2 255\n");
    assert_eq!(ppm_row(&[rgb(1, 2, 3), rgb(255, 0, 10)]), b"1 2 3 255 0 10\n");
    assert_eq!(ppm_row(&[]), b"\n");
    let mut noise = Noise::new(2, 2, Counting { n: 0 });
    let text = String::from_utf8(to_ppm(&mut noise)).unwrap();
    assert_eq!(text, "P3 2 2 255\n1 0 255 2 0 255\n3 0 255 4 0 255\n");
}

#[test]
fn random_generators() {
    let mut g = RandomNoiseGenerator::new();
    for _ in 0..100 {
        let c = g.next();
        assert!(c.red < 255 && c.green < 255 && c.blue < 255);
    }
    let p = Palette::new(vec![rgb(9, 9, 9), rgb(7, 7, 7)]).unwrap();
    let mut g = PaletteNoiseGenerator::new(p);
    for _ in 0..100 {
        let c = g.next();
        assert!(c == rgb(9, 9, 9) || c == rgb(7, 7, 7));
    }
    let mut noise = Noise::new(4, 3, RandomNoiseGenerator::new());
    let text = String::from_utf8(to_ppm(&mut noise)).unwrap();
    assert!(text.starts_with("P3 4 3 255\n"));
    assert_eq!(text.lines().count(), 4);
}
