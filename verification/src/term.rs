//! Terminal geometry: how big the terminal is, in cells and in pixels, and when to ask
//! it again.

use vstd::prelude::*;
use vstd::slice::slice_subrange;
use vstd::string::*;

use crate::digits::{digits, digits_read_back, is_digit, lacks};
use crate::parse::{
    drop_leading, drop_leading_is, number16, number16_of_digits, parse_u16, split, split_once,
    split_once_is, split_once_is_none, strip_leading, to_chars, trim, trimmed,
};

verus! {

/// Terminal geometry: cells and (if the terminal reports it) pixels.
#[derive(Clone, Copy, Debug, PartialEq, Eq, Structural)]
pub struct TermSize {
    pub cols: u16,
    pub rows: u16,
    pub xpixel: u16,
    pub ypixel: u16,
}

/// How many ticks pass between two looks at the terminal's size.
pub const REQUERY_TICKS: u64 = 120;

// ---- the spec format ----------------------------------------------------------------

/// A number with white space around it.
pub open spec fn padded_number(s: Seq<char>) -> Option<u16> {
    number16(trimmed(s))
}

/// What a `colsxrows@wxh` text says.
pub open spec fn spec_size(s: Seq<char>) -> Option<TermSize> {
    match split_once(s, '@') {
        None => None,
        Some((grid, px)) => match (split_once(grid, 'x'), split_once(px, 'x')) {
            (Some((cols, rows)), Some((w, h))) => match (
                padded_number(cols),
                padded_number(rows),
                padded_number(w),
                padded_number(h),
            ) {
                (Some(cols), Some(rows), Some(xpixel), Some(ypixel)) => Some(
                    TermSize { cols, rows, xpixel, ypixel },
                ),
                _ => None,
            },
            _ => None,
        },
    }
}

impl TermSize {
    /// Parses `colsxrows@wxh` (e.g. `212x51@1920x1080`) into a `TermSize`.
    pub fn parse_spec(spec: &str) -> (size: Option<TermSize>)
        ensures
            size == spec_size(spec@),
    {
        let chars = to_chars(spec);
        let (grid, px) = match split(chars.as_slice(), '@') {
            Some(p) => p,
            None => {
                return None;
            },
        };
        let (cols, rows) = match split(grid, 'x') {
            Some(p) => p,
            None => {
                return None;
            },
        };
        let (w, h) = match split(px, 'x') {
            Some(p) => p,
            None => {
                return None;
            },
        };
        match (parse_u16(trim(cols)), parse_u16(trim(rows)), parse_u16(trim(w)), parse_u16(trim(h))) {
            (Some(cols), Some(rows), Some(xpixel), Some(ypixel)) => Some(
                TermSize { cols, rows, xpixel, ypixel },
            ),
            _ => None,
        }
    }
}

// ---- the CSI reply ------------------------------------------------------------------

/// A reply without its introducer and its final letter.
pub open spec fn reply_body(s: Seq<char>) -> Seq<char> {
    let b = drop_leading(drop_leading(s, |c: char| c == '\x1b'), |c: char| c == '[');
    if b.len() > 0 && b.last() == 't' {
        b.drop_last()
    } else {
        b
    }
}

/// What a `CSI 4 ; <height> ; <width> t` reply says: width, then height.
pub open spec fn reply_size(s: Seq<char>) -> Option<(u16, u16)> {
    match split_once(reply_body(s), ';') {
        None => None,
        Some((kind, rest)) => if kind != "4"@ {
            None
        } else {
            match split_once(rest, ';') {
                None => None,
                Some((h, tail)) => {
                    let w = match split_once(tail, ';') {
                        Some((w, _)) => w,
                        None => tail,
                    };
                    match (padded_number(h), padded_number(w)) {
                        (Some(h), Some(w)) => Some((w, h)),
                        _ => None,
                    }
                },
            }
        },
    }
}

/// Parses a `CSI 4 ; <height> ; <width> t` reply into `(width, height)`.
///
/// Note the reply carries HEIGHT before WIDTH, which is the opposite of every other size
/// in this crate: getting it backwards swaps the aspect and misplaces everything.
pub fn parse_csi_14t_reply(s: &str) -> (size: Option<(u16, u16)>)
    ensures
        size == reply_size(s@),
{
    let chars = to_chars(s);
    let open = strip_leading(strip_leading(chars.as_slice(), '\x1b'), '[');
    let body: &[char] = if open.len() > 0 && open[open.len() - 1] == 't' {
        slice_subrange(open, 0, open.len() - 1)
    } else {
        open
    };
    proof {
        reveal_strlit("4");
        assert(body@ =~= reply_body(s@));
    }
    let (kind, rest) = match split(body, ';') {
        Some(p) => p,
        None => {
            return None;
        },
    };
    if kind.len() != 1 || kind[0] != '4' {
        proof {
            assert(kind@ != "4"@);
        }
        return None;
    }
    assert(kind@ =~= "4"@);
    let (h, tail) = match split(rest, ';') {
        Some(p) => p,
        None => {
            return None;
        },
    };
    let w: &[char] = match split(tail, ';') {
        Some(p) => p.0,
        None => tail,
    };
    match (parse_u16(trim(h)), parse_u16(trim(w))) {
        (Some(h), Some(w)) => Some((w, h)),
        _ => None,
    }
}

/// The longest reply that is read.
pub const REPLY_MAX: usize = 64;

/// Whether to read on, given what has come of a reply so far: it is short, and its final
/// letter `t` has not come.
pub fn reply_goes_on(read: &[u8]) -> (b: bool)
    ensures
        b == (read@.len() < REPLY_MAX && (read@.len() == 0 || read@.last() != 0x74)),
{
    read.len() < REPLY_MAX && (read.len() == 0 || read[read.len() - 1] != 0x74)
}

// ---- the size in force --------------------------------------------------------------

/// The pixel size of a terminal as measured once, and the grid that it was measured
/// over. Together they say how big a cell is, exactly.
///
/// The cell SIZE does not change while the process runs, only the grid does: a resize
/// changes the grid, and the cell size measured here stays in use.
#[derive(Clone, Copy, Debug, PartialEq, Eq, Structural)]
pub struct CellSize {
    w: u16,
    h: u16,
    cols: u16,
    rows: u16,
}

/// `n` cells of `px / grid` pixels each, rounded to the nearest pixel and capped.
pub open spec fn cells_px(n: u16, px: u16, grid: u16) -> int {
    let v = (2 * n * px + grid) / (2 * grid);
    if v > u16::MAX {
        u16::MAX as int
    } else {
        v
    }
}

/// `n` cells of `px / grid` pixels each.
fn measure_cells(n: u16, px: u16, grid: u16) -> (v: u16)
    requires
        grid > 0,
    ensures
        v == cells_px(n, px, grid),
{
    assert(0 <= n * px <= 0xffff * 0xffff) by (nonlinear_arith)
        requires
            n <= 0xffff,
            px <= 0xffff,
    ;
    assert(2 * n * px == 2 * (n * px)) by (nonlinear_arith);
    let v: u64 = (2 * ((n as u64) * (px as u64)) + grid as u64) / (2 * (grid as u64));
    if v > 65535 {
        65535
    } else {
        v as u16
    }
}

impl CellSize {
    /// Whether every number is positive.
    pub closed spec fn wf(self) -> bool {
        self.w > 0 && self.h > 0 && self.cols > 0 && self.rows > 0
    }

    /// The measured pixel size and the grid it was measured over.
    pub closed spec fn parts(self) -> (u16, u16, u16, u16) {
        (self.w, self.h, self.cols, self.rows)
    }

    /// A measurement: the pixel size that the terminal gave for its grid, if it gave one
    /// that says anything.
    pub fn measured(reply: Option<(u16, u16)>, cols: u16, rows: u16) -> (cell: Option<CellSize>)
        ensures
            cell is Some <==> (reply matches Some((w, h)) && w > 0 && h > 0 && cols > 0 && rows
                > 0),
            cell matches Some(c) ==> c.wf() && c.parts() == ((reply->0).0, (reply->0).1, cols, rows),
    {
        match reply {
            Some((w, h)) => {
                if w > 0 && h > 0 && cols > 0 && rows > 0 {
                    Some(CellSize { w, h, cols, rows })
                } else {
                    None
                }
            },
            None => None,
        }
    }

    /// The pixel size of a grid with cells of this size.
    pub fn pixels(&self, cols: u16, rows: u16) -> (px: (u16, u16))
        requires
            self.wf(),
        ensures
            px.0 == cells_px(cols, self.parts().0, self.parts().2),
            px.1 == cells_px(rows, self.parts().1, self.parts().3),
    {
        (measure_cells(cols, self.w, self.cols), measure_cells(rows, self.h, self.rows))
    }
}

/// Whether a report names a grid.
pub open spec fn names_a_grid(report: Option<TermSize>) -> bool {
    report matches Some(r) && r.cols > 0 && r.rows > 0
}

/// The size that is used where the terminal does not say enough: 80x24 with 640x384
/// pixels.
pub open spec fn fallback_size() -> TermSize {
    TermSize { cols: 80, rows: 24, xpixel: 640, ypixel: 384 }
}

/// The size that is used: the forced one; else what the terminal reports, with a missing
/// pixel size made up from the measured cells; else the fallback, whole. A cell size is
/// never guessed: that would get the aspect wrong and misplace everything.
pub open spec fn size_in_force(
    forced: Option<TermSize>,
    report: Option<TermSize>,
    cell: Option<CellSize>,
) -> TermSize {
    if forced is Some {
        forced->0
    } else if names_a_grid(report) {
        let r = report->0;
        if r.xpixel > 0 && r.ypixel > 0 {
            r
        } else {
            match cell {
                Some(c) => TermSize {
                    xpixel: cells_px(r.cols, c.parts().0, c.parts().2) as u16,
                    ypixel: cells_px(r.rows, c.parts().1, c.parts().3) as u16,
                    ..r
                },
                None => fallback_size(),
            }
        }
    } else {
        fallback_size()
    }
}

impl TermSize {
    /// Whether the terminal has to be asked for its pixel size: it names a grid but not
    /// the pixels, as an SSH pty does.
    pub fn lacks_pixels(forced: Option<TermSize>, report: Option<TermSize>) -> (b: bool)
        ensures
            b == (forced is None && names_a_grid(report) && (report->0.xpixel == 0
                || report->0.ypixel == 0)),
    {
        match (forced, report) {
            (None, Some(r)) => r.cols > 0 && r.rows > 0 && (r.xpixel == 0 || r.ypixel == 0),
            _ => false,
        }
    }

    /// The terminal's size, from what the terminal reports of itself.
    ///
    /// `forced` skips the report entirely. `report` is the window size that the terminal
    /// driver gave, or `None` if it gave none. `cell` is the measured cell size, looked
    /// at only where the report has no pixel size. Falls back to a sane 80x24 / 640x384 if
    /// there is no report, or one without a pixel size and nothing measured to make it up.
    pub fn query(
        forced: Option<TermSize>,
        report: Option<TermSize>,
        cell: Option<CellSize>,
    ) -> (size: TermSize)
        requires
            cell matches Some(c) ==> c.wf(),
        ensures
            size == size_in_force(forced, report, cell),
    {
        if let Some(size) = forced {
            return size;
        }
        if let Some(r) = report {
            if r.cols > 0 && r.rows > 0 {
                if r.xpixel > 0 && r.ypixel > 0 {
                    return r;
                }
                if let Some(c) = cell {
                    let (xpixel, ypixel) = c.pixels(r.cols, r.rows);
                    return TermSize { cols: r.cols, rows: r.rows, xpixel, ypixel };
                }
            }
        }
        TermSize { cols: 80, rows: 24, xpixel: 640, ypixel: 384 }
    }

    /// Pixels per cell, floored, and at least one.
    pub open spec fn cell(self) -> (int, int) {
        let cw = if self.cols > 0 {
            self.xpixel as int / self.cols as int
        } else {
            8
        };
        let ch = if self.rows > 0 {
            self.ypixel as int / self.rows as int
        } else {
            16
        };
        (
            if cw < 1 {
                1
            } else {
                cw
            },
            if ch < 1 {
                1
            } else {
                ch
            },
        )
    }

    /// Pixels per cell (integer, floored). Guards against divide-by-zero.
    pub fn cell_px(&self) -> (px: (u32, u32))
        ensures
            px.0 == self.cell().0,
            px.1 == self.cell().1,
    {
        let cw: u32 = if self.cols > 0 {
            self.xpixel as u32 / self.cols as u32
        } else {
            8
        };
        let ch: u32 = if self.rows > 0 {
            self.ypixel as u32 / self.rows as u32
        } else {
            16
        };
        (
            if cw < 1 {
                1
            } else {
                cw
            },
            if ch < 1 {
                1
            } else {
                ch
            },
        )
    }

    /// The CELL-ALIGNED pixel area of the grid. The cell size is floored, so this is
    /// what the cells cover, which may be less than the raw pixel count.
    pub fn grid_px(&self) -> (px: (u32, u32))
        ensures
            px.0 == self.cols * self.cell().0,
            px.1 == self.rows * self.cell().1,
    {
        let (cw, ch) = self.cell_px();
        proof {
            cell_bounds(*self);
            let (a, b) = self.cell();
            assert(0 <= self.cols * a <= 0xffff * 0xffff) by (nonlinear_arith)
                requires
                    0 <= self.cols <= 0xffff,
                    0 <= a <= 0xffff,
            ;
            assert(0 <= self.rows * b <= 0xffff * 0xffff) by (nonlinear_arith)
                requires
                    0 <= self.rows <= 0xffff,
                    0 <= b <= 0xffff,
            ;
        }
        (self.cols as u32 * cw, self.rows as u32 * ch)
    }
}

proof fn cell_bounds(t: TermSize)
    ensures
        1 <= t.cell().0 <= 0xffff,
        1 <= t.cell().1 <= 0xffff,
{
    if t.cols > 0 {
        let (a, b) = (t.xpixel as int, t.cols as int);
        assert(a / b <= a) by (nonlinear_arith)
            requires
                a >= 0,
                b >= 1,
        ;
    }
    if t.rows > 0 {
        let (a, b) = (t.ypixel as int, t.rows as int);
        assert(a / b <= a) by (nonlinear_arith)
            requires
                a >= 0,
                b >= 1,
        ;
    }
}

// ---- when to ask --------------------------------------------------------------------

/// The tick counter of a pass and the terminal size that it last saw.
#[derive(Clone, Copy, Debug)]
pub struct TermClock {
    pub tick: u64,
    pub term: Option<TermSize>,
}

impl TermClock {
    /// A clock at tick zero that has not seen the terminal.
    pub fn new() -> (clock: TermClock)
        ensures
            clock == (TermClock { tick: 0, term: None }),
    {
        TermClock { tick: 0, term: None }
    }

    /// Starts the next tick. Returns whether the terminal has to be asked for its size:
    /// if it never was, and then once in a while in case of a resize.
    pub fn advance(&mut self) -> (ask: bool)
        requires
            old(self).tick < u64::MAX,
        ensures
            final(self).tick == old(self).tick + 1,
            final(self).term == old(self).term,
            ask == (final(self).term is None || final(self).tick % REQUERY_TICKS == 0),
    {
        self.tick = self.tick + 1;
        self.term.is_none() || self.tick % REQUERY_TICKS == 0
    }

    /// Takes note of the terminal's size.
    pub fn set(&mut self, size: TermSize)
        ensures
            *final(self) == (TermClock { term: Some(size), ..*old(self) }),
    {
        self.term = Some(size);
    }

    /// Whether this tick is one of those that are logged: the first three, and then one
    /// in a while.
    pub fn reports(&self) -> (b: bool)
        ensures
            b == (self.tick <= 3 || self.tick % REQUERY_TICKS == 0),
    {
        self.tick <= 3 || self.tick % REQUERY_TICKS == 0
    }
}

// ---- laws ---------------------------------------------------------------------------

/// The `colsxrows@wxh` text of a size.
pub open spec fn spec_text(t: TermSize) -> Seq<char> {
    digits(t.cols as nat) + "x"@ + digits(t.rows as nat) + "@"@ + digits(t.xpixel as nat) + "x"@
        + digits(t.ypixel as nat)
}

/// The reply of a terminal with a given pixel size: height before width.
pub open spec fn reply_text(w: u16, h: u16) -> Seq<char> {
    "\x1b[4;"@ + digits(h as nat) + ";"@ + digits(w as nat) + "t"@
}

proof fn digits_lack(n: nat, c: char)
    requires
        !is_digit(c),
    ensures
        lacks(digits(n), c),
{
    digits_read_back(n);
}

/// Every size can be written in the spec format, and reads back as itself.
pub proof fn specs_read_back(t: TermSize)
    ensures
        spec_size(spec_text(t)) == Some(t),
{
    reveal_strlit("x");
    reveal_strlit("@");
    let c = digits(t.cols as nat);
    let r = digits(t.rows as nat);
    let w = digits(t.xpixel as nat);
    let h = digits(t.ypixel as nat);
    digits_lack(t.cols as nat, 'x');
    digits_lack(t.cols as nat, '@');
    digits_lack(t.rows as nat, '@');
    digits_lack(t.xpixel as nat, 'x');
    let grid = c.push('x') + r;
    let px = w.push('x') + h;
    assert(spec_text(t) =~= grid.push('@') + px);
    assert(lacks(grid, '@'));
    split_once_is(grid, '@', px);
    split_once_is(c, 'x', r);
    split_once_is(w, 'x', h);
    number16_of_digits(t.cols as nat);
    number16_of_digits(t.rows as nat);
    number16_of_digits(t.xpixel as nat);
    number16_of_digits(t.ypixel as nat);
}

/// A terminal's reply about its pixel size is understood, width and height the right way
/// round.
pub proof fn replies_read_back(w: u16, h: u16)
    ensures
        reply_size(reply_text(w, h)) == Some((w, h)),
{
    reveal_strlit("\x1b[4;");
    reveal_strlit(";");
    reveal_strlit("t");
    reveal_strlit("4");
    let hd = digits(h as nat);
    let wd = digits(w as nat);
    digits_lack(h as nat, ';');
    digits_lack(w as nat, ';');
    let s = reply_text(w, h);
    let tail = hd.push(';') + wd;
    let body = seq!['4'].push(';') + tail;
    let esc = |c: char| c == '\x1b';
    let bra = |c: char| c == '[';
    assert(s =~= seq!['\x1b', '['] + body.push('t'));
    drop_leading_is(s, esc, 1);
    let t = s.skip(1);
    drop_leading_is(t, bra, 1);
    assert(t.skip(1) =~= body.push('t'));
    assert(body.push('t').drop_last() =~= body);
    assert(reply_body(s) =~= body);
    assert("4"@ =~= seq!['4']);
    split_once_is(seq!['4'], ';', tail);
    split_once_is(hd, ';', wd);
    split_once_is_none(wd, ';');
    number16_of_digits(w as nat);
    number16_of_digits(h as nat);
}

/// A terminal that keeps its grid keeps the pixel size that was measured. One with a
/// different grid gets a size in proportion: the cell size is what stays.
pub proof fn cells_keep_their_size(n: u16, px: u16, grid: u16)
    requires
        grid > 0,
    ensures
        cells_px(grid, px, grid) == px,
        n * px % (grid as int) == 0 && n * px / (grid as int) <= u16::MAX ==> cells_px(n, px, grid)
            == n * px / (grid as int),
{
    let g = grid as int;
    let p = px as int;
    assert(2 * g * p == p * (2 * g)) by (nonlinear_arith);
    vstd::arithmetic::div_mod::lemma_fundamental_div_mod_converse(2 * g * p + g, 2 * g, p, g);
    if n * px % g == 0 {
        let q = n * px / g;
        vstd::arithmetic::div_mod::lemma_fundamental_div_mod(n * px, g);
        assert(2 * n * px + g == q * (2 * g) + g) by (nonlinear_arith)
            requires
                n * px == g * q,
        ;
        vstd::arithmetic::div_mod::lemma_fundamental_div_mod_converse(
            2 * n * px + g,
            2 * g,
            q,
            g,
        );
    }
}

/// The cell-aligned area lies inside the terminal: scaling the world into it lands every
/// placement on a cell that exists.
pub proof fn the_grid_fits_the_terminal(t: TermSize)
    requires
        0 < t.cols <= t.xpixel,
        0 < t.rows <= t.ypixel,
    ensures
        t.cols * t.cell().0 <= t.xpixel,
        t.rows * t.cell().1 <= t.ypixel,
        t.xpixel < t.cols * (t.cell().0 + 1),
        t.ypixel < t.rows * (t.cell().1 + 1),
{
    let (a, b) = (t.xpixel as int, t.cols as int);
    vstd::arithmetic::div_mod::lemma_fundamental_div_mod(a, b);
    assert(a / b >= 1) by (nonlinear_arith)
        requires
            0 < b <= a,
    ;
    assert(b * (a / b + 1) == b * (a / b) + b) by (nonlinear_arith);
    let (c, d) = (t.ypixel as int, t.rows as int);
    vstd::arithmetic::div_mod::lemma_fundamental_div_mod(c, d);
    assert(c / d >= 1) by (nonlinear_arith)
        requires
            0 < d <= c,
    ;
    assert(d * (c / d + 1) == d * (c / d) + d) by (nonlinear_arith);
}

/// Whether a pixel count is that of `n` cells, where `grid` cells are `px` pixels: off by
/// half a pixel at most, and 65535 for any count beyond.
pub open spec fn is_cell_count(v: int, n: int, px: int, grid: int) -> bool {
    if n * px >= 65535 * grid {
        v == 65535
    } else {
        -grid <= 2 * (grid * v - n * px) <= grid
    }
}

/// Cells are measured to the nearest pixel.
pub proof fn cells_are_measured_to_the_pixel(n: u16, px: u16, grid: u16)
    requires
        grid > 0,
    ensures
        is_cell_count(cells_px(n, px, grid), n as int, px as int, grid as int),
        0 <= cells_px(n, px, grid) <= 65535,
{
    let (a, b, g) = (n as int, px as int, grid as int);
    let x = 2 * a * b + g;
    let q = x / (2 * g);
    vstd::arithmetic::div_mod::lemma_fundamental_div_mod(x, 2 * g);
    let r = x % (2 * g);
    assert(x == 2 * (a * b) + g) by (nonlinear_arith)
        requires
            x == 2 * a * b + g,
    ;
    assert(x == 2 * (g * q) + r) by (nonlinear_arith)
        requires
            x == (2 * g) * q + r,
    ;
    assert(0 <= a * b) by (nonlinear_arith)
        requires
            0 <= a,
            0 <= b,
    ;
    assert(q >= 0) by (nonlinear_arith)
        requires
            2 * (a * b) + g == 2 * (g * q) + r,
            0 <= a * b,
            0 <= r < 2 * g,
            0 < g,
    ;
    if a * b >= 65535 * g {
        assert(q >= 65535) by (nonlinear_arith)
            requires
                2 * (a * b) + g == 2 * (g * q) + r,
                a * b >= 65535 * g,
                0 <= r < 2 * g,
                0 < g,
        ;
    } else {
        assert(q <= 65535) by (nonlinear_arith)
            requires
                2 * (a * b) + g == 2 * (g * q) + r,
                a * b < 65535 * g,
                0 <= r < 2 * g,
                0 < g,
        ;
    }
}

/// Which size is used. A forced size is. Else, where the terminal names a grid, that grid
/// is; with the pixels that the terminal names, both of them, or with those of its cells as
/// they were measured: the width from the columns, the height from the rows. Else it is
/// 80x24 cells and 640x384 pixels.
pub proof fn the_size_that_is_used(
    forced: Option<TermSize>,
    report: Option<TermSize>,
    cell: Option<CellSize>,
)
    requires
        cell matches Some(c) ==> c.parts().2 > 0 && c.parts().3 > 0,
    ensures
        ({
            let t = size_in_force(forced, report, cell);
            let fallback = t.cols == 80 && t.rows == 24 && t.xpixel == 640 && t.ypixel == 384;
            match (forced, report, cell) {
                (Some(f), _, _) => t == f,
                (None, None, _) => fallback,
                (None, Some(r), None) => {
                    &&& r.cols == 0 || r.rows == 0 || r.xpixel == 0 || r.ypixel == 0 ==> fallback
                    &&& r.cols > 0 && r.rows > 0 && r.xpixel > 0 && r.ypixel > 0 ==> t == r
                },
                (None, Some(r), Some(c)) => {
                    let (w, h, cols, rows) = c.parts();
                    &&& r.cols == 0 || r.rows == 0 ==> fallback
                    &&& r.cols > 0 && r.rows > 0 && r.xpixel > 0 && r.ypixel > 0 ==> t == r
                    &&& r.cols > 0 && r.rows > 0 && (r.xpixel == 0 || r.ypixel == 0) ==> {
                        &&& t.cols == r.cols && t.rows == r.rows
                        &&& is_cell_count(t.xpixel as int, r.cols as int, w as int, cols as int)
                        &&& is_cell_count(t.ypixel as int, r.rows as int, h as int, rows as int)
                    }
                },
            }
        }),
{
    if let (Some(r), Some(c)) = (report, cell) {
        cells_are_measured_to_the_pixel(r.cols, c.parts().0, c.parts().2);
        cells_are_measured_to_the_pixel(r.rows, c.parts().1, c.parts().3);
    }
}

/// A cell is as many whole pixels as fit for each of the grid's, and one at the least; a
/// terminal without a grid has cells of 8x16.
pub proof fn a_cell_is_its_share_of_pixels(t: TermSize)
    ensures
        ({
            let (w, h) = t.cell();
            &&& t.cols == 0 ==> w == 8
            &&& t.rows == 0 ==> h == 16
            &&& 0 < t.cols && t.xpixel < t.cols ==> w == 1
            &&& 0 < t.rows && t.ypixel < t.rows ==> h == 1
            &&& 0 < t.cols <= t.xpixel ==> t.cols * w <= t.xpixel < t.cols * (w + 1)
            &&& 0 < t.rows <= t.ypixel ==> t.rows * h <= t.ypixel < t.rows * (h + 1)
        }),
{
    let (a, b) = (t.xpixel as int, t.cols as int);
    if b > 0 {
        vstd::arithmetic::div_mod::lemma_fundamental_div_mod(a, b);
        assert(b * (a / b + 1) == b * (a / b) + b) by (nonlinear_arith);
        assert(a >= b ==> a / b >= 1) by (nonlinear_arith)
            requires
                0 < b,
        ;
        assert(0 <= a < b ==> a / b < 1) by (nonlinear_arith)
            requires
                0 < b,
        ;
    }
    let (c, d) = (t.ypixel as int, t.rows as int);
    if d > 0 {
        vstd::arithmetic::div_mod::lemma_fundamental_div_mod(c, d);
        assert(d * (c / d + 1) == d * (c / d) + d) by (nonlinear_arith);
        assert(c >= d ==> c / d >= 1) by (nonlinear_arith)
            requires
                0 < d,
        ;
        assert(0 <= c < d ==> c / d < 1) by (nonlinear_arith)
            requires
                0 < d,
        ;
    }
}

/// A size is read field by field, columns, rows, width and height in turn, each a number
/// with white space around it; if one of them is no number, or a separator is missing, there
/// is no size.
pub proof fn a_size_is_read_field_by_field(
    c: Seq<char>,
    r: Seq<char>,
    w: Seq<char>,
    h: Seq<char>,
)
    requires
        lacks(c, 'x'),
        lacks(c, '@'),
        lacks(r, '@'),
        lacks(w, 'x'),
    ensures
        ({
            let s = c + "x"@ + r + "@"@ + w + "x"@ + h;
            let (nc, nr, nw, nh) = (
                number16(trimmed(c)),
                number16(trimmed(r)),
                number16(trimmed(w)),
                number16(trimmed(h)),
            );
            &&& spec_size(s) is Some <==> nc is Some && nr is Some && nw is Some && nh is Some
            &&& spec_size(s) matches Some(t) ==> {
                &&& nc == Some(t.cols)
                &&& nr == Some(t.rows)
                &&& nw == Some(t.xpixel)
                &&& nh == Some(t.ypixel)
            }
        }),
        spec_size(c) is None,
        spec_size(c + "@"@ + w + "x"@ + h) is None,
        spec_size(c + "x"@ + r + "@"@ + w) is None,
{
    reveal_strlit("x");
    reveal_strlit("@");
    let grid = c.push('x') + r;
    let px = w.push('x') + h;
    assert(lacks(grid, '@'));
    assert(c + "x"@ + r + "@"@ + w + "x"@ + h =~= grid.push('@') + px);
    split_once_is(grid, '@', px);
    split_once_is(c, 'x', r);
    split_once_is(w, 'x', h);
    split_once_is_none(c, '@');
    split_once_is_none(c, 'x');
    split_once_is_none(w, 'x');
    assert(c + "@"@ + w + "x"@ + h =~= c.push('@') + px);
    split_once_is(c, '@', px);
    assert(c + "x"@ + r + "@"@ + w =~= grid.push('@') + w);
    split_once_is(grid, '@', w);
}

/// A reply is read field by field: `4`, then the height, then the width, each a number with
/// white space around it; what follows a further semicolon does not matter, nor does the
/// final letter. Any other kind of reply says nothing about the size.
pub proof fn a_reply_is_read_field_by_field(
    kind: Seq<char>,
    h: Seq<char>,
    w: Seq<char>,
    more: Seq<char>,
)
    requires
        kind.len() > 0,
        kind[0] != '\x1b',
        kind[0] != '[',
        lacks(kind, ';'),
        lacks(h, ';'),
        lacks(w, ';'),
    ensures
        ({
            let s = "\x1b["@ + kind + ";"@ + h + ";"@ + w;
            let (nh, nw) = (number16(trimmed(h)), number16(trimmed(w)));
            &&& kind != "4"@ ==> reply_size(s + "t"@) is None
            &&& kind == "4"@ ==> (reply_size(s + "t"@) is Some <==> nh is Some && nw is Some)
            &&& reply_size(s + "t"@) matches Some((x, y)) ==> nw == Some(x) && nh == Some(y)
            &&& reply_size(s + ";"@ + more + "t"@) == reply_size(s + "t"@)
        }),
{
    reveal_strlit("\x1b[");
    reveal_strlit(";");
    reveal_strlit("t");
    let s = "\x1b["@ + kind + ";"@ + h + ";"@ + w;
    let rest = h.push(';') + w;
    let body = kind.push(';') + rest;
    assert(s + "t"@ =~= seq!['\x1b', '['] + body.push('t'));
    an_opened_reply(body);
    split_once_is(kind, ';', rest);
    split_once_is(h, ';', w);
    split_once_is_none(w, ';');
    let wide = w.push(';') + more;
    let long = kind.push(';') + (h.push(';') + wide);
    assert(s + ";"@ + more + "t"@ =~= seq!['\x1b', '['] + long.push('t'));
    an_opened_reply(long);
    split_once_is(kind, ';', h.push(';') + wide);
    split_once_is(h, ';', wide);
    split_once_is(w, ';', more);
}

proof fn an_opened_reply(body: Seq<char>)
    requires
        body.len() > 0,
        body[0] != '\x1b',
        body[0] != '[',
    ensures
        reply_body(seq!['\x1b', '['] + body.push('t')) == body,
{
    let s = seq!['\x1b', '['] + body.push('t');
    let esc = |c: char| c == '\x1b';
    let bra = |c: char| c == '[';
    drop_leading_is(s, esc, 1);
    let t = s.skip(1);
    assert(t[0] == '[' && t[1] == body[0]);
    drop_leading_is(t, bra, 1);
    assert(t.skip(1) =~= body.push('t'));
    assert(body.push('t').drop_last() =~= body);
}

} // verus!
