//! Terminal styling: 24-bit color and attribute escape sequences, built and
//! specified byte for byte (CSI `38;2;r;g;b m` for foreground colors, CSI
//! `48;2;r;g;b m` for backgrounds, and the bold/dim/underline/reset
//! attributes).

use vstd::prelude::*;

verus! {

/// A resolved 24-bit color.
#[derive(Clone, Copy, PartialEq, Eq, Structural, Debug)]
pub struct Rgb {
    pub r: u8,
    pub g: u8,
    pub b: u8,
}

/// The decimal digits of `n`, most significant first, no sign, no padding.
pub open spec fn dec_digits(n: int) -> Seq<u8>
    decreases n,
{
    if n < 10 {
        seq![(48 + if n >= 0 { n } else { 0 }) as u8]
    } else {
        dec_digits(n / 10).push((48 + n % 10) as u8)
    }
}

/// The decimal digits of `n`.
pub fn dec_u64(n: u64) -> (r: Vec<u8>)
    ensures
        r@ == dec_digits(n as int),
    decreases n,
{
    if n < 10 {
        let mut v: Vec<u8> = Vec::new();
        v.push(48 + (n as u8));
        proof {
            assert(v@ =~= dec_digits(n as int));
        }
        v
    } else {
        let mut v = dec_u64(n / 10);
        v.push(48 + ((n % 10) as u8));
        proof {
            assert(v@ =~= dec_digits(n as int));
        }
        v
    }
}

/// The two bytes every escape sequence opens with: ESC `[`.
pub open spec fn csi() -> Seq<u8> {
    seq![27u8, 91u8]
}

/// The escape sequence that selects foreground color `c`.
pub open spec fn fg_seq(c: Rgb) -> Seq<u8> {
    csi() + seq![51u8, 56u8, 59u8, 50u8, 59u8] + dec_digits(c.r as int) + seq![59u8] + dec_digits(
        c.g as int,
    ) + seq![59u8] + dec_digits(c.b as int) + seq![109u8]
}

/// The escape sequence that selects background color `c`.
pub open spec fn bg_seq(c: Rgb) -> Seq<u8> {
    csi() + seq![52u8, 56u8, 59u8, 50u8, 59u8] + dec_digits(c.r as int) + seq![59u8] + dec_digits(
        c.g as int,
    ) + seq![59u8] + dec_digits(c.b as int) + seq![109u8]
}

/// The bold attribute.
pub open spec fn bold_seq() -> Seq<u8> {
    seq![27u8, 91u8, 49u8, 109u8]
}

/// The dim attribute.
pub open spec fn dim_seq() -> Seq<u8> {
    seq![27u8, 91u8, 50u8, 109u8]
}

/// The underline attribute.
pub open spec fn underline_seq() -> Seq<u8> {
    seq![27u8, 91u8, 52u8, 109u8]
}

/// The full style reset.
pub open spec fn reset_seq() -> Seq<u8> {
    seq![27u8, 91u8, 48u8, 109u8]
}

fn color_params(c: Rgb, selector: u8) -> (r: Vec<u8>)
    requires
        selector == 51 || selector == 52,
    ensures
        r@ == csi() + seq![selector, 56u8, 59u8, 50u8, 59u8] + dec_digits(c.r as int) + seq![59u8]
            + dec_digits(c.g as int) + seq![59u8] + dec_digits(c.b as int) + seq![109u8],
{
    let mut v: Vec<u8> = Vec::new();
    v.push(27);
    v.push(91);
    v.push(selector);
    v.push(56);
    v.push(59);
    v.push(50);
    v.push(59);
    let mut rr = dec_u64(c.r as u64);
    v.append(&mut rr);
    v.push(59);
    let mut gg = dec_u64(c.g as u64);
    v.append(&mut gg);
    v.push(59);
    let mut bb = dec_u64(c.b as u64);
    v.append(&mut bb);
    v.push(109);
    proof {
        assert(v@ =~= csi() + seq![selector, 56u8, 59u8, 50u8, 59u8] + dec_digits(c.r as int)
            + seq![59u8] + dec_digits(c.g as int) + seq![59u8] + dec_digits(c.b as int)
            + seq![109u8]);
    }
    v
}

/// The foreground escape for `c`, as bytes.
pub fn fg_escape(c: Rgb) -> (r: Vec<u8>)
    ensures
        r@ == fg_seq(c),
{
    color_params(c, 51)
}

/// The background escape for `c`, as bytes.
pub fn bg_escape(c: Rgb) -> (r: Vec<u8>)
    ensures
        r@ == bg_seq(c),
{
    color_params(c, 52)
}

fn attr_escape(code: u8) -> (r: Vec<u8>)
    ensures
        r@ == seq![27u8, 91u8, code, 109u8],
{
    let mut v: Vec<u8> = Vec::new();
    v.push(27);
    v.push(91);
    v.push(code);
    v.push(109);
    proof {
        assert(v@ =~= seq![27u8, 91u8, code, 109u8]);
    }
    v
}

/// The bold attribute, as bytes.
pub fn bold_escape() -> (r: Vec<u8>)
    ensures
        r@ == bold_seq(),
{
    attr_escape(49)
}

/// The dim attribute, as bytes.
pub fn dim_escape() -> (r: Vec<u8>)
    ensures
        r@ == dim_seq(),
{
    attr_escape(50)
}

/// The underline attribute, as bytes.
pub fn underline_escape() -> (r: Vec<u8>)
    ensures
        r@ == underline_seq(),
{
    attr_escape(52)
}

/// The style reset, as bytes.
pub fn reset_escape() -> (r: Vec<u8>)
    ensures
        r@ == reset_seq(),
{
    attr_escape(48)
}

} // verus!
