use vstd::prelude::*;

use crate::color::Rgb;
use crate::decimal::{decimal_text, push_decimal};

verus! {

/// An image whose rows can be drawn one after another.
pub trait Image {
    spec fn image_width(&self) -> nat;

    spec fn image_height(&self) -> nat;

    /// The width, in pixels.
    fn width(&self) -> (r: usize)
        ensures
            r == self.image_width();

    /// The height, in pixels.
    fn height(&self) -> (r: usize)
        ensures
            r == self.image_height();

    /// The next row, exactly `width` pixels long, or `None` when no row is left.
    fn next_row(&mut self) -> (r: Option<Vec<Rgb>>)
        ensures
            final(self).image_width() == old(self).image_width(),
            final(self).image_height() == old(self).image_height(),
            r is Some ==> r.unwrap()@.len() == old(self).image_width();
}

/// One pixel as text: `red green blue` in decimal.
pub open spec fn pixel_text(c: Rgb) -> Seq<u8> {
    decimal_text(c.red as nat) + seq![32u8] + decimal_text(c.green as nat) + seq![32u8] + decimal_text(
        c.blue as nat,
    )
}

/// A row of pixels as text, the pixels separated by single spaces.
pub open spec fn row_text(row: Seq<Rgb>) -> Seq<u8>
    decreases row.len(),
{
    if row.len() == 0 {
        Seq::empty()
    } else if row.len() == 1 {
        pixel_text(row[0])
    } else {
        row_text(row.drop_last()) + seq![32u8] + pixel_text(row.last())
    }
}

/// The header of a plain PPM file: its magic number, the width, the height and 255,
/// separated by spaces, then a line break.
pub open spec fn header_text(width: nat, height: nat) -> Seq<u8> {
    seq![80u8, 51u8, 32u8] + decimal_text(width) + seq![32u8] + decimal_text(height) + seq![
        32u8,
        50u8,
        53u8,
        53u8,
        10u8,
    ]
}

/// Rows as text, each followed by a line break.
pub open spec fn rows_text(rows: Seq<Seq<Rgb>>) -> Seq<u8>
    decreases rows.len(),
{
    if rows.len() == 0 {
        Seq::empty()
    } else {
        rows_text(rows.drop_last()) + row_text(rows.last()) + seq![10u8]
    }
}

/// The header of a plain PPM file of the given size, with 255 as the largest channel value.
pub fn ppm_header(width: usize, height: usize) -> (r: Vec<u8>)
    ensures
        r@ == header_text(width as nat, height as nat),
{
    let mut out: Vec<u8> = Vec::new();
    out.push(80u8);
    out.push(51u8);
    out.push(32u8);
    push_decimal(&mut out, width as u64);
    out.push(32u8);
    push_decimal(&mut out, height as u64);
    out.push(32u8);
    out.push(50u8);
    out.push(53u8);
    out.push(53u8);
    out.push(10u8);
    assert(out@ =~= header_text(width as nat, height as nat));
    out
}

/// One row of a plain PPM file: the pixels' channels in decimal, separated by
/// spaces, then a line break.
pub fn ppm_row(row: &[Rgb]) -> (r: Vec<u8>)
    ensures
        r@ == row_text(row@) + seq![10u8],
{
    let mut out: Vec<u8> = Vec::new();
    let mut i: usize = 0;
    while i < row.len()
        invariant
            i <= row@.len(),
            out@ == row_text(row@.take(i as int)),
        decreases row@.len() - i,
    {
        let c = row[i];
        let ghost before = out@;
        if i > 0 {
            out.push(32u8);
        }
        push_decimal(&mut out, c.red as u64);
        out.push(32u8);
        push_decimal(&mut out, c.green as u64);
        out.push(32u8);
        push_decimal(&mut out, c.blue as u64);
        proof {
            let next = row@.take(i + 1);
            assert(next.drop_last() =~= row@.take(i as int));
            assert(next.last() == c);
            if i > 0 {
                assert(out@ =~= before + seq![32u8] + pixel_text(c));
            } else {
                assert(out@ =~= before + pixel_text(c));
            }
        }
        i = i + 1;
    }
    assert(row@.take(i as int) =~= row@);
    out.push(10u8);
    out
}

/// The whole image as a plain PPM file: the header, then each row on a line of its own.
pub fn to_ppm<I: Image>(image: &mut I) -> (r: Vec<u8>)
    ensures
        exists|rows: Seq<Seq<Rgb>>|
            rows.len() <= old(image).image_height() && (forall|i: int|
                0 <= i < rows.len() ==> (#[trigger] rows[i]).len() == old(image).image_width()) && r@
                == header_text(old(image).image_width(), old(image).image_height()) + rows_text(rows),
{
    let width = image.width();
    let height = image.height();
    let mut out = ppm_header(width, height);
    let ghost mut rows: Seq<Seq<Rgb>> = Seq::empty();
    let mut i: usize = 0;
    while i < height
        invariant
            i <= height,
            height == old(image).image_height(),
            width == old(image).image_width(),
            image.image_width() == width,
            image.image_height() == height,
            rows.len() == i,
            forall|j: int| 0 <= j < rows.len() ==> (#[trigger] rows[j]).len() == width,
            out@ == header_text(width as nat, height as nat) + rows_text(rows),
        decreases height - i,
    {
        match image.next_row() {
            Some(row) => {
                let line = ppm_row(row.as_slice());
                let ghost before = out@;
                let mut k: usize = 0;
                while k < line.len()
                    invariant
                        k <= line@.len(),
                        out@ == before + line@.take(k as int),
                    decreases line@.len() - k,
                {
                    out.push(line[k]);
                    k = k + 1;
                    assert(out@ =~= before + line@.take(k as int));
                }
                proof {
                    assert(line@.take(k as int) =~= line@);
                    let new_rows = rows.push(row@);
                    assert(new_rows.drop_last() =~= rows);
                    assert(out@ =~= header_text(width as nat, height as nat) + rows_text(new_rows));
                    rows = new_rows;
                }
            },
            None => {
                break;
            },
        }
        i = i + 1;
    }
    out
}

} // verus!
