use vstd::prelude::*;

use rand::rngs::{SmallRng, ThreadRng};
use rand::{RngCore, SeedableRng};

use crate::color::{Palette, Rgb};
use crate::ppm::Image;

verus! {

/// `rand::rngs::SmallRng`, carried through as an opaque value.
#[verifier::external_type_specification]
#[verifier::external_body]
pub struct ExSmallRng(SmallRng);

/// `rand::rngs::ThreadRng`, carried through as an opaque value.
#[verifier::external_type_specification]
#[verifier::external_body]
pub struct ExThreadRng(ThreadRng);

/// Relies on `rand::rng`: a handle on the thread-local generator, seeded by the system.
#[verifier::external_body]
fn thread_rng() -> ThreadRng {
    rand::rng()
}

/// Relies on `SeedableRng::from_rng` of `SmallRng`: a generator seeded from `rng`.
#[verifier::external_body]
fn small_rng_from(rng: &mut ThreadRng) -> SmallRng {
    SmallRng::from_rng(rng)
}

/// Relies on `RngCore::next_u32` of `SmallRng`: the next random `u32`.
#[verifier::external_body]
fn next_u32_of(rng: &mut SmallRng) -> u32 {
    rng.next_u32()
}

/// Relies on `RngCore::next_u64` of `SmallRng`: the next random `u64`.
#[verifier::external_body]
fn next_u64_of(rng: &mut SmallRng) -> u64 {
    rng.next_u64()
}

/// A source of pixel colours.
pub trait NoiseGenerator {
    fn next(&mut self) -> Rgb;
}

/// A channel value drawn from a random `u32`: its remainder by 255.
pub fn channel_from_random(x: u32) -> (r: u8)
    ensures
        r as int == x as int % 255,
{
    (x % 255) as u8
}

/// A colour whose channels are drawn from three random `u32`s.
pub fn rgb_from_random(red: u32, green: u32, blue: u32) -> (r: Rgb)
    ensures
        r.red as int == red as int % 255,
        r.green as int == green as int % 255,
        r.blue as int == blue as int % 255,
{
    Rgb { red: channel_from_random(red), green: channel_from_random(green), blue: channel_from_random(blue) }
}

/// The colour of `palette` at the position a random `u64` picks: its remainder by
/// the palette's length.
pub fn pick_color(palette: &Palette, x: u64) -> (r: Rgb)
    ensures
        r == palette@[(x as int) % (palette@.len() as int)],
{
    let colors = palette.colors();
    let index = (x % (colors.len() as u64)) as usize;
    colors[index]
}

/// Colours with random channels.
pub struct RandomNoiseGenerator {
    rng: SmallRng,
}

impl RandomNoiseGenerator {
    /// A generator seeded from the thread-local generator.
    pub fn new() -> Self {
        let mut seed = thread_rng();
        Self::from_rng(small_rng_from(&mut seed))
    }

    /// A generator that draws from `rng`.
    pub fn from_rng(rng: SmallRng) -> Self {
        RandomNoiseGenerator { rng }
    }
}

impl NoiseGenerator for RandomNoiseGenerator {
    fn next(&mut self) -> Rgb {
        let red = next_u32_of(&mut self.rng);
        let green = next_u32_of(&mut self.rng);
        let blue = next_u32_of(&mut self.rng);
        rgb_from_random(red, green, blue)
    }
}

/// Colours drawn at random from a palette.
pub struct PaletteNoiseGenerator {
    rng: SmallRng,
    palette: Palette,
}

impl PaletteNoiseGenerator {
    /// The colours drawn from.
    pub closed spec fn colors_view(&self) -> Seq<Rgb> {
        self.palette@
    }

    /// A generator over `palette`, seeded from the thread-local generator.
    pub fn new(palette: Palette) -> (r: Self)
        ensures
            r.colors_view() == palette@,
    {
        let mut seed = thread_rng();
        Self::from_rng(small_rng_from(&mut seed), palette)
    }

    /// A generator over `palette` that draws from `rng`.
    pub fn from_rng(rng: SmallRng, palette: Palette) -> (r: Self)
        ensures
            r.colors_view() == palette@,
    {
        PaletteNoiseGenerator { rng, palette }
    }
}

impl NoiseGenerator for PaletteNoiseGenerator {
    fn next(&mut self) -> Rgb {
        let x = next_u64_of(&mut self.rng);
        pick_color(&self.palette, x)
    }
}

/// One row of an image, handed out pixel by pixel from left to right.
pub struct NoiseRow {
    pixels: Vec<Rgb>,
    position: usize,
}

impl NoiseRow {
    #[verifier::type_invariant]
    spec fn position_in_row(&self) -> bool {
        self.position <= self.pixels@.len()
    }

    /// The pixels not handed out yet.
    pub closed spec fn remaining(&self) -> Seq<Rgb> {
        self.pixels@.skip(self.position as int)
    }

    /// The number of pixels not handed out yet.
    pub fn columns_left(&self) -> (r: usize)
        ensures
            r == self.remaining().len(),
    {
        proof {
            use_type_invariant(self);
        }
        self.pixels.len() - self.position
    }

    /// The pixels not handed out yet, from left to right.
    pub fn into_pixels(self) -> (r: Vec<Rgb>)
        ensures
            r@ == self.remaining(),
    {
        proof {
            use_type_invariant(&self);
        }
        let mut out: Vec<Rgb> = Vec::new();
        let mut i: usize = self.position;
        while i < self.pixels.len()
            invariant
                self.position <= i <= self.pixels@.len(),
                out@ == self.pixels@.subrange(self.position as int, i as int),
            decreases self.pixels@.len() - i,
        {
            out.push(self.pixels[i]);
            i = i + 1;
            assert(out@ =~= self.pixels@.subrange(self.position as int, i as int));
        }
        assert(out@ =~= self.remaining());
        out
    }

    /// The next pixel, or `None` at the end of the row.
    pub fn next(&mut self) -> (r: Option<Rgb>)
        ensures
            old(self).remaining().len() == 0 ==> r is None && final(self).remaining() == old(self).remaining(),
            old(self).remaining().len() > 0 ==> r == Some(old(self).remaining()[0])
                && final(self).remaining() == old(self).remaining().drop_first(),
    {
        proof {
            use_type_invariant(&*self);
        }
        if self.position == self.pixels.len() {
            return None;
        }
        let pixel = self.pixels[self.position];
        self.position = self.position + 1;
        assert(self.pixels@.skip(self.position as int) =~= old(self).remaining().drop_first());
        Some(pixel)
    }
}

/// An image of random pixels from a generator, drawn one row at a time.
pub struct Noise<G: NoiseGenerator> {
    width: usize,
    height: usize,
    rows_left: usize,
    generator: G,
}

impl<G: NoiseGenerator> Noise<G> {
    pub closed spec fn spec_width(&self) -> nat {
        self.width as nat
    }

    pub closed spec fn spec_height(&self) -> nat {
        self.height as nat
    }

    pub closed spec fn spec_rows_left(&self) -> nat {
        self.rows_left as nat
    }

    /// An image of the given size; no row drawn yet.
    pub fn new(width: usize, height: usize, generator: G) -> (r: Self)
        requires
            width > 0,
            height > 0,
        ensures
            r.spec_width() == width,
            r.spec_height() == height,
            r.spec_rows_left() == height,
    {
        Noise { width, height, rows_left: height, generator }
    }

    /// The next row, `width` pixels long, or `None` once `height` rows have been drawn.
    pub fn next(&mut self) -> (r: Option<NoiseRow>)
        ensures
            final(self).spec_width() == old(self).spec_width(),
            final(self).spec_height() == old(self).spec_height(),
            old(self).spec_rows_left() == 0 ==> r is None && final(self).spec_rows_left() == 0,
            old(self).spec_rows_left() > 0 ==> r is Some && r.unwrap().remaining().len() == old(self).spec_width()
                && final(self).spec_rows_left() == old(self).spec_rows_left() - 1,
    {
        if self.rows_left == 0 {
            return None;
        }
        self.rows_left = self.rows_left - 1;
        let mut pixels: Vec<Rgb> = Vec::new();
        let mut i: usize = 0;
        while i < self.width
            invariant
                i <= self.width,
                self.width == old(self).width,
                self.height == old(self).height,
                self.rows_left == old(self).rows_left - 1,
                pixels@.len() == i,
            decreases self.width - i,
        {
            pixels.push(self.generator.next());
            i = i + 1;
        }
        let row = NoiseRow { pixels, position: 0 };
        assert(row.remaining() =~= row.pixels@);
        Some(row)
    }
}

impl<G: NoiseGenerator> Image for Noise<G> {
    open spec fn image_width(&self) -> nat {
        self.spec_width()
    }

    open spec fn image_height(&self) -> nat {
        self.spec_height()
    }

    fn width(&self) -> (r: usize) {
        self.width
    }

    fn height(&self) -> (r: usize) {
        self.height
    }

    fn next_row(&mut self) -> (r: Option<Vec<Rgb>>) {
        match self.next() {
            Some(row) => Some(row.into_pixels()),
            None => None,
        }
    }
}

} // verus!
