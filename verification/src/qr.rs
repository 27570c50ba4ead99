//! Lays the signalling link out as a QR code, so the joiner can point a phone
//! at the host's screen instead of moving a URL between devices.
use vstd::prelude::*;
use vstd::string::*;

use qrcode::types::QrError;
use qrcode::QrCode;

verus! {

/// A QR code needs a light margin of at least four modules or scanners will
/// not find its edges. The page is dark, so this is drawn explicitly.
pub const QUIET: u32 = 4;

/// Backing-store size to aim for. The canvas is displayed smaller via CSS;
/// rendering above display size keeps the modules crisp when the browser
/// scales it down.
pub const TARGET: u32 = 640;

/// Why there is no QR code for a text.
#[derive(Clone, Copy, PartialEq, Eq, Debug, Structural)]
pub enum QrFault {
    DataTooLong,
    InvalidVersion,
    UnsupportedCharacterSet,
    InvalidEciDesignator,
    InvalidCharacter,
}

impl QrFault {
    pub open spec fn words(self) -> Seq<char> {
        match self {
            QrFault::DataTooLong => "data too long"@,
            QrFault::InvalidVersion => "invalid version"@,
            QrFault::UnsupportedCharacterSet => "unsupported character set"@,
            QrFault::InvalidEciDesignator => "invalid ECI designator"@,
            QrFault::InvalidCharacter => "invalid character"@,
        }
    }

    pub fn text(self) -> (s: &'static str)
        ensures
            s@ == self.words(),
    {
        match self {
            QrFault::DataTooLong => "data too long",
            QrFault::InvalidVersion => "invalid version",
            QrFault::UnsupportedCharacterSet => "unsupported character set",
            QrFault::InvalidEciDesignator => "invalid ECI designator",
            QrFault::InvalidCharacter => "invalid character",
        }
    }
}

/// The QR code of some bytes at the medium error correction level, as
/// `QrCode::new` of the `qrcode` crate makes it: the modules along one side,
/// and all of them row by row, `true` for a dark one.
pub uninterp spec fn qr_symbol(data: Seq<u8>) -> Result<(usize, Seq<bool>), QrFault>;

/// `QrCode::new` of the `qrcode` crate, with the `width` and the `to_vec` of
/// the code it makes. The code is a function of the data alone. It is square:
/// versions 1 to 40 have 21 to 177 modules a side, and there is one entry for
/// each module.
#[allow(deprecated)]
#[verifier::external_body]
fn symbol(data: &[u8]) -> (r: Result<(usize, Vec<bool>), QrFault>)
    ensures
        match r {
            Ok((width, modules)) => {
                &&& qr_symbol(data@) == Ok::<(usize, Seq<bool>), QrFault>((width, modules@))
                &&& 21 <= width <= 177
                &&& modules@.len() == width * width
            },
            Err(fault) => qr_symbol(data@) == Err::<(usize, Seq<bool>), QrFault>(fault),
        },
{
    match QrCode::new(data) {
        Ok(code) => Ok((code.width(), code.to_vec())),
        Err(QrError::DataTooLong) => Err(QrFault::DataTooLong),
        Err(QrError::InvalidVersion) => Err(QrFault::InvalidVersion),
        Err(QrError::UnsupportedCharacterSet) => Err(QrFault::UnsupportedCharacterSet),
        Err(QrError::InvalidEciDesignator) => Err(QrFault::InvalidEciDesignator),
        Err(QrError::InvalidCharacter) => Err(QrFault::InvalidCharacter),
    }
}

/// A QR code ready to be painted: a white sheet of `size` pixels a side, and
/// the corners of the black squares of `scale` pixels on it.
pub struct Sheet {
    pub modules: u32,
    pub scale: u32,
    pub size: u32,
    pub squares: Vec<(u32, u32)>,
}

/// Pixels along one side of a module: as many as fit the target, and one at
/// least.
pub open spec fn scale_for(width: int) -> int {
    if 640int / (width + 8) < 1 {
        1
    } else {
        640int / (width + 8)
    }
}

/// The corners of the dark ones among the first `n` modules.
pub open spec fn corners(width: int, dark: Seq<bool>, n: nat) -> Seq<(u32, u32)>
    decreases n,
{
    if n == 0 {
        seq![]
    } else {
        let i = n - 1;
        let before = corners(width, dark, i as nat);
        if dark[i] {
            before.push(
                (
                    ((i % width + 4) * scale_for(width)) as u32,
                    ((i / width + 4) * scale_for(width)) as u32,
                ),
            )
        } else {
            before
        }
    }
}

/// The sheet shows this code.
pub open spec fn shows(sheet: Sheet, width: usize, dark: Seq<bool>) -> bool {
    &&& sheet.modules == width
    &&& sheet.scale == scale_for(width as int)
    &&& sheet.size == (width + 8) * scale_for(width as int)
    &&& sheet.squares@ == corners(width as int, dark, dark.len())
}

proof fn lemma_scale(width: int)
    requires
        1 <= width <= 177,
    ensures
        1 <= scale_for(width) <= 71,
        (width + 8) * scale_for(width) <= 640,
{
    let t = width + 8;
    let q = 640int / t;
    vstd::arithmetic::div_mod::lemma_fundamental_div_mod(640, t);
    assert(q >= 1) by (nonlinear_arith)
        requires
            640 == t * q + 640int % t,
            0 <= 640int % t < t,
            t <= 185,
    ;
    assert(q <= 71) by (nonlinear_arith)
        requires
            t * q <= 640,
            t >= 9,
    ;
}

proof fn lemma_corner(width: int, i: int)
    requires
        1 <= width <= 177,
        0 <= i < width * width,
    ensures
        0 <= i % width < width,
        0 <= i / width < width,
        (i % width + 4) * scale_for(width) <= 640,
        (i / width + 4) * scale_for(width) <= 640,
        0 <= (i % width + 4) * scale_for(width),
        0 <= (i / width + 4) * scale_for(width),
{
    lemma_scale(width);
    vstd::arithmetic::div_mod::lemma_fundamental_div_mod(i, width);
    let x = i % width;
    let y = i / width;
    let s = scale_for(width);
    assert(0 <= y < width) by (nonlinear_arith)
        requires
            i == width * y + x,
            0 <= x < width,
            0 <= i < width * width,
    ;
    assert(0 <= (x + 4) * s <= (width + 8) * s && 0 <= (y + 4) * s <= (width + 8) * s)
        by (nonlinear_arith)
        requires
            0 <= x < width,
            0 <= y < width,
            s >= 1,
    ;
}

/// Lays out a code of `width` modules a side.
pub fn lay_out(width: usize, dark: &[bool]) -> (sheet: Sheet)
    requires
        1 <= width <= 177,
        dark@.len() == width * width,
    ensures
        shows(sheet, width, dark@),
{
    proof {
        lemma_scale(width as int);
    }
    let modules: u32 = width as u32;
    let total: u32 = modules + QUIET * 2;
    let fit: u32 = TARGET / total;
    let scale: u32 = if fit < 1 {
        1
    } else {
        fit
    };
    let size: u32 = total * scale;
    let mut squares: Vec<(u32, u32)> = Vec::new();
    let mut i: usize = 0;
    while i < dark.len()
        invariant
            i <= dark@.len(),
            dark@.len() == width * width,
            1 <= width <= 177,
            modules == width,
            scale == scale_for(width as int),
            squares@ == corners(width as int, dark@, i as nat),
        decreases dark@.len() - i,
    {
        if dark[i] {
            proof {
                lemma_corner(width as int, i as int);
            }
            let x: u32 = ((i % width) as u32 + QUIET) * scale;
            let y: u32 = ((i / width) as u32 + QUIET) * scale;
            squares.push((x, y));
        }
        i = i + 1;
    }
    Sheet { modules, scale, size, squares }
}

/// The QR code of a text, laid out. Its module count is worth logging — a link
/// near the format's limit produces a dense code that phones struggle to read.
pub fn render(text: &str) -> (r: Result<Sheet, QrFault>)
    ensures
        match r {
            Ok(sheet) => match qr_symbol(text.spec_bytes()) {
                Ok((width, dark)) => shows(sheet, width, dark),
                Err(_) => false,
            },
            Err(fault) => qr_symbol(text.spec_bytes()) == Err::<(usize, Seq<bool>), QrFault>(fault),
        },
{
    match symbol(text.as_bytes()) {
        Ok((width, modules)) => Ok(lay_out(width, modules.as_slice())),
        Err(fault) => Err(fault),
    }
}

/// The quiet zone stays white: every black square keeps four modules from
/// every edge of the sheet.
pub proof fn law_the_quiet_zone_stays_white(width: int, dark: Seq<bool>, n: nat, k: int)
    requires
        1 <= width <= 177,
        dark.len() == width * width,
        n <= dark.len(),
        0 <= k < corners(width, dark, n).len(),
    ensures
        ({
            let (x, y) = corners(width, dark, n)[k];
            let s = scale_for(width);
            let size = (width + 8) * s;
            &&& 4 * s <= x && x + s <= size - 4 * s
            &&& 4 * s <= y && y + s <= size - 4 * s
        }),
    decreases n,
{
    if n > 0 {
        let i = n - 1;
        let before = corners(width, dark, i as nat);
        if k < before.len() {
            law_the_quiet_zone_stays_white(width, dark, i as nat, k);
        } else {
            lemma_corner(width, i);
            lemma_scale(width);
            let s = scale_for(width);
            let x = i % width;
            let y = i / width;
            assert((x + 4) * s + s <= (width + 8) * s - 4 * s && (y + 4) * s + s <= (width + 8) * s
                - 4 * s && 4 * s <= (x + 4) * s && 4 * s <= (y + 4) * s) by (nonlinear_arith)
                requires
                    0 <= x < width,
                    0 <= y < width,
                    s >= 1,
            ;
        }
    }
}

/// A module is as many pixels wide as fit: one more would be too many.
pub proof fn law_the_code_fills_the_sheet(width: int)
    requires
        1 <= width <= 177,
    ensures
        scale_for(width) >= 1,
        (width + 8) * scale_for(width) <= 640,
        (width + 8) * (scale_for(width) + 1) > 640,
{
    lemma_scale(width);
    let t = width + 8;
    let q = 640int / t;
    vstd::arithmetic::div_mod::lemma_fundamental_div_mod(640, t);
    assert(t * (q + 1) > 640) by (nonlinear_arith)
        requires
            640 == t * q + 640int % t,
            0 <= 640int % t < t,
    ;
}

/// Every dark module is painted where it stands: its column and its row, four
/// modules in from the corner.
pub proof fn law_every_dark_module_is_painted(width: int, dark: Seq<bool>, n: nat, i: int)
    requires
        1 <= width <= 177,
        dark.len() == width * width,
        0 <= i < n <= dark.len(),
        dark[i],
    ensures
        exists|k: int|
            0 <= k < corners(width, dark, n).len() && (#[trigger] corners(width, dark, n)[k]).0 == (
            i % width + 4) * scale_for(width) && corners(width, dark, n)[k].1 == (i / width + 4)
                * scale_for(width),
    decreases n,
{
    let all = corners(width, dark, n);
    lemma_corner(width, i);
    let before = corners(width, dark, (n - 1) as nat);
    if i < n - 1 {
        law_every_dark_module_is_painted(width, dark, (n - 1) as nat, i);
        let k = choose|k: int|
            0 <= k < before.len() && (#[trigger] before[k]).0 == (i % width + 4) * scale_for(width)
                && before[k].1 == (i / width + 4) * scale_for(width);
        assert(all[k] == before[k]);
    } else {
        assert(all[all.len() - 1].0 == (i % width + 4) * scale_for(width));
    }
}

/// Nothing else is painted: every square is that of a dark module.
pub proof fn law_every_square_is_a_dark_module(width: int, dark: Seq<bool>, n: nat, k: int)
    requires
        1 <= width <= 177,
        dark.len() == width * width,
        n <= dark.len(),
        0 <= k < corners(width, dark, n).len(),
    ensures
        exists|i: int|
            0 <= i < n && #[trigger] dark[i] && corners(width, dark, n)[k].0 == (i % width + 4)
                * scale_for(width) && corners(width, dark, n)[k].1 == (i / width + 4) * scale_for(
                width,
            ),
    decreases n,
{
    if n > 0 {
        let before = corners(width, dark, (n - 1) as nat);
        if k < before.len() {
            law_every_square_is_a_dark_module(width, dark, (n - 1) as nat, k);
            assert(corners(width, dark, n)[k] == before[k]);
        } else {
            lemma_corner(width, n - 1);
            assert(dark[n - 1]);
        }
    }
}

/// A sheet has room for the code and four modules around it, and as many
/// squares on it as the code has dark modules.
pub proof fn law_a_sheet_shows_the_whole_code(sheet: Sheet, width: usize, dark: Seq<bool>)
    requires
        shows(sheet, width, dark),
    ensures
        sheet.modules == width,
        sheet.size == (sheet.modules + 8) * sheet.scale,
        sheet.squares@ == corners(width as int, dark, dark.len()),
        sheet.squares@.len() == Set::new(|i: int| 0 <= i < dark.len() && dark[i]).len(),
{
    lemma_corners(width as int, dark, dark.len());
}

proof fn lemma_corners(width: int, dark: Seq<bool>, n: nat)
    requires
        n <= dark.len(),
    ensures
        Set::new(|i: int| 0 <= i < n && dark[i]).finite(),
        corners(width, dark, n).len() == Set::new(|i: int| 0 <= i < n && dark[i]).len(),
    decreases n,
{
    let all = Set::new(|i: int| 0 <= i < n && dark[i]);
    if n == 0 {
        assert(all =~= Set::empty());
    } else {
        let before = Set::new(|i: int| 0 <= i < n - 1 && dark[i]);
        lemma_corners(width, dark, (n - 1) as nat);
        assert(before =~= Set::new(|i: int| 0 <= i < (n - 1) as nat && dark[i]));
        if dark[n - 1] {
            assert(all =~= before.insert(n - 1));
        } else {
            assert(all =~= before);
        }
    }
}

} // verus!
