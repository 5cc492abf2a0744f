//! The plain-text PPM image format.
//!
//! A file is the three header lines `P3`, `<width> <height>` and `255`,
//! then one line `<R> <G> <B>` for each pixel, row after row from the top
//! and from left to right within a row, then one empty line. Numbers are
//! written in decimal. Samples are written as they are: a sample outside
//! `0..=255` is not clamped.

use crate::canvas::Canvas;
use vstd::prelude::*;

verus! {

/// The three samples of one pixel, as they appear in the file.
#[derive(Debug, Clone, Copy, PartialEq, Eq, Structural)]
pub struct Sample {
    pub r: i64,
    pub g: i64,
    pub b: i64,
}

/// The ASCII character of the digit `d`.
pub open spec fn digit(d: int) -> u8 {
    (48 + d) as u8
}

/// A natural number in decimal, without leading zeros.
pub open spec fn decimal_nat(n: nat) -> Seq<u8>
    decreases n,
{
    if n < 10 {
        seq![digit(n as int)]
    } else {
        decimal_nat(n / 10).push(digit((n % 10) as int))
    }
}

/// An integer in decimal, with a minus sign if it is negative.
pub open spec fn decimal(n: int) -> Seq<u8> {
    if n < 0 {
        seq![45u8] + decimal_nat((-n) as nat)
    } else {
        decimal_nat(n as nat)
    }
}

/// The line of one pixel: its samples separated by spaces.
pub open spec fn pixel_line(p: Sample) -> Seq<u8> {
    decimal(p.r as int) + seq![32u8] + decimal(p.g as int) + seq![32u8] + decimal(p.b as int)
        + seq![10u8]
}

/// The lines of the first `n` pixels of a row.
pub open spec fn row_lines(row: Seq<Sample>, n: int) -> Seq<u8>
    decreases n,
{
    if n <= 0 {
        Seq::empty()
    } else {
        row_lines(row, n - 1) + pixel_line(row[n - 1])
    }
}

/// The lines of the first `n` rows of a raster.
pub open spec fn raster_lines(rows: Seq<Seq<Sample>>, n: int) -> Seq<u8>
    decreases n,
{
    if n <= 0 {
        Seq::empty()
    } else {
        raster_lines(rows, n - 1) + row_lines(rows[n - 1], rows[n - 1].len() as int)
    }
}

/// The header: `P3`, the size, and the largest sample value.
pub open spec fn header(width: nat, height: nat) -> Seq<u8> {
    seq![80u8, 51u8, 10u8] + decimal_nat(width) + seq![32u8] + decimal_nat(height) + seq![10u8]
        + seq![50u8, 53u8, 53u8, 10u8]
}

/// The whole file for a raster of the given size.
pub open spec fn ppm(width: nat, height: nat, rows: Seq<Seq<Sample>>) -> Seq<u8> {
    header(width, height) + raster_lines(rows, height as int) + seq![10u8]
}

/// The number that a string of decimal digits denotes.
pub open spec fn value(digits: Seq<u8>) -> nat
    decreases digits.len(),
{
    if digits.len() == 0 {
        0
    } else {
        value(digits.drop_last()) * 10 + (digits.last() - 48) as nat
    }
}

/// A number in decimal is a string of digits, at least one, that starts
/// with a zero only if the number is zero, and that denotes the number.
pub proof fn lemma_decimal_reads_back(n: nat)
    ensures
        decimal_nat(n).len() >= 1,
        forall|i: int| 0 <= i < decimal_nat(n).len() ==> 48 <= #[trigger] decimal_nat(n)[i] <= 57,
        decimal_nat(n)[0] == 48 <==> n == 0,
        value(decimal_nat(n)) == n,
    decreases n,
{
    let text = decimal_nat(n);
    if n < 10 {
        assert(text.drop_last() =~= Seq::<u8>::empty());
        assert(value(text.drop_last()) == 0);
        assert(text.last() == 48 + n);
    } else {
        lemma_decimal_reads_back(n / 10);
        assert(text.drop_last() =~= decimal_nat(n / 10));
        assert(text.last() == 48 + n % 10);
        assert(text[0] == decimal_nat(n / 10)[0]);
    }
    assert(value(text) == value(text.drop_last()) * 10 + (text.last() - 48) as nat);
}

fn push_decimal_nat(out: &mut Vec<u8>, n: u64)
    ensures
        final(out)@ == old(out)@ + decimal_nat(n as nat),
{
    let mut low: Vec<u8> = Vec::new();
    let mut m: u64 = n;
    while m >= 10
        invariant
            decimal_nat(n as nat) == decimal_nat(m as nat) + low@.reverse(),
        decreases m,
    {
        let d: u8 = (m % 10) as u8;
        let ghost before = low@;
        low.push(48 + d);
        proof {
            assert(low@.reverse() =~= seq![digit((m % 10) as int)] + before.reverse());
            assert(decimal_nat(m as nat) == decimal_nat((m / 10) as nat).push(
                digit((m % 10) as int),
            ));
            assert(decimal_nat((m / 10) as nat).push(digit((m % 10) as int)) + before.reverse()
                =~= decimal_nat((m / 10) as nat) + low@.reverse());
        }
        m = m / 10;
    }
    out.push(48 + (m as u8));
    let mut i: usize = low.len();
    while i > 0
        invariant
            i <= low@.len(),
            m < 10,
            out@ == old(out)@ + decimal_nat(m as nat) + low@.reverse().take(low@.len() - i),
        decreases i,
    {
        i -= 1;
        out.push(low[i]);
        assert(low@.reverse().take(low@.len() - i) =~= low@.reverse().take(low@.len() - i - 1).push(
            low@[i as int],
        ));
    }
    assert(low@.reverse().take(low@.len() as int) =~= low@.reverse());
    assert(old(out)@ + decimal_nat(m as nat) + low@.reverse() =~= old(out)@ + (decimal_nat(
        m as nat,
    ) + low@.reverse()));
}

fn push_decimal(out: &mut Vec<u8>, n: i64)
    ensures
        final(out)@ == old(out)@ + decimal(n as int),
{
    if n < 0 {
        out.push(45);
        let m: u64 = ((-(n + 1)) as u64) + 1;
        push_decimal_nat(out, m);
        assert(old(out)@.push(45u8) + decimal_nat(m as nat) =~= old(out)@ + (seq![45u8]
            + decimal_nat(m as nat)));
    } else {
        push_decimal_nat(out, n as u64);
    }
}

fn push_pixel_line(out: &mut Vec<u8>, p: Sample)
    ensures
        final(out)@ == old(out)@ + pixel_line(p),
{
    push_decimal(out, p.r);
    out.push(32);
    push_decimal(out, p.g);
    out.push(32);
    push_decimal(out, p.b);
    out.push(10);
    assert(out@ =~= old(out)@ + pixel_line(p));
}

/// Writes `canvas` out as a PPM file.
pub fn encode(canvas: &Canvas<Sample>) -> (out: Vec<u8>)
    ensures
        out@ == ppm(canvas.spec_width(), canvas.spec_height(), canvas@),
{
    let width: usize = canvas.width();
    let height: usize = canvas.height();
    let mut out: Vec<u8> = Vec::new();
    out.push(80);
    out.push(51);
    out.push(10);
    push_decimal_nat(&mut out, width as u64);
    out.push(32);
    push_decimal_nat(&mut out, height as u64);
    out.push(10);
    out.push(50);
    out.push(53);
    out.push(53);
    out.push(10);
    assert(out@ =~= header(width as nat, height as nat));
    let mut y: usize = 0;
    while y < height
        invariant
            y <= height,
            width == canvas.spec_width(),
            height == canvas.spec_height(),
            canvas@.len() == height,
            forall|j: int| 0 <= j < height ==> (#[trigger] canvas@[j]).len() == width,
            out@ == header(width as nat, height as nat) + raster_lines(canvas@, y as int),
        decreases height - y,
    {
        let ghost done = out@;
        let mut x: usize = 0;
        while x < width
            invariant
                x <= width,
                y < height,
                width == canvas.spec_width(),
                height == canvas.spec_height(),
                canvas@.len() == height,
                out@ == done + row_lines(canvas@[y as int], x as int),
            decreases width - x,
        {
            let p: Sample = canvas.pixel_at(x, y);
            push_pixel_line(&mut out, p);
            x += 1;
            assert(out@ =~= done + row_lines(canvas@[y as int], x as int));
        }
        y += 1;
        assert(out@ =~= header(width as nat, height as nat) + raster_lines(canvas@, y as int));
    }
    out.push(10);
    out
}

} // verus!
