//! Drawing the grid into a frame of RGBA pixels (four bytes per pixel, row after row).
//!
//! The grid is drawn in a square (dimension 2) or a strip (dimension 1) centred on the
//! screen. When the screen has fewer pixels than the grid has cells along a side, only
//! every `cell_step`-th cell is drawn, one pixel each; otherwise each cell is a square of
//! `cell_size` pixels.
use vstd::prelude::*;
use vstd::arithmetic::div_mod::{lemma_fundamental_div_mod, lemma_fundamental_div_mod_converse};
use crate::simulation::picture::Rgb;
use crate::simulation::SimulationDevice;

verus! {

/// Byte `ch` of a pixel of colour `c`: red, green, blue, then an opaque alpha.
pub open spec fn channel(c: Rgb, ch: int) -> u8 {
    if ch == 0 {
        c.0
    } else if ch == 1 {
        c.1
    } else if ch == 2 {
        c.2
    } else {
        255u8
    }
}

/// The frame `old` with each pixel `p` for which `f(p)` is a colour painted in it.
pub open spec fn painted(old: Seq<u8>, f: spec_fn(int) -> Option<Rgb>) -> Seq<u8> {
    Seq::new(
        old.len(),
        |i: int|
            match f(i / 4) {
                Some(c) => channel(c, i % 4),
                None => old[i],
            },
    )
}

/// The colours of `g`, and those of `f` where `g` has none.
pub open spec fn overlay(
    f: spec_fn(int) -> Option<Rgb>,
    g: spec_fn(int) -> Option<Rgb>,
) -> spec_fn(int) -> Option<Rgb> {
    |p: int| if g(p) is Some { g(p) } else { f(p) }
}

/// The pixels `start .. start + len`, all of colour `c`.
pub open spec fn run_map(start: int, len: int, c: Rgb) -> spec_fn(int) -> Option<Rgb> {
    |p: int| if start <= p < start + len { Some(c) } else { None }
}

/// No pixel.
pub open spec fn no_pixel() -> spec_fn(int) -> Option<Rgb> {
    |p: int| None
}

/// Painting twice is painting once with the second colours over the first.
pub proof fn lemma_painted_twice(old: Seq<u8>, f: spec_fn(int) -> Option<Rgb>, g: spec_fn(int) -> Option<Rgb>)
    ensures
        painted(painted(old, f), g) == painted(old, overlay(f, g)),
{
    assert(painted(painted(old, f), g) =~= painted(old, overlay(f, g)));
}

/// Painting with the same colours gives the same frame.
pub proof fn lemma_painted_ext(old: Seq<u8>, f: spec_fn(int) -> Option<Rgb>, g: spec_fn(int) -> Option<Rgb>)
    requires
        forall|p: int| #[trigger] f(p) == g(p),
    ensures
        painted(old, f) == painted(old, g),
{
    assert(f =~= g);
}

/// The byte `i` belongs to pixel `q` exactly when `4q <= i < 4q + 4`.
proof fn lemma_byte_of_pixel(i: int, q: int)
    requires
        0 <= i,
    ensures
        (i / 4 == q) <==> (4 * q <= i < 4 * q + 4),
        i / 4 == q ==> i % 4 == i - 4 * q,
{
    lemma_fundamental_div_mod_converse(i, 4, i / 4, i % 4);
    if 4 * q <= i < 4 * q + 4 {
        lemma_fundamental_div_mod_converse(i, 4, q, i - 4 * q);
    }
}

/// Paints pixel `q` in colour `c`.
fn paint_pixel(frame: &mut [u8], q: usize, c: Rgb)
    requires
        4 * q + 3 < old(frame)@.len(),
    ensures
        final(frame)@ == painted(old(frame)@, run_map(q as int, 1, c)),
{
    let index = 4 * q;
    frame[index] = c.0;
    frame[index + 1] = c.1;
    frame[index + 2] = c.2;
    frame[index + 3] = 255;
    proof {
        assert forall|i: int| 0 <= i < frame@.len() implies #[trigger] frame@[i] == painted(
            old(frame)@,
            run_map(q as int, 1, c),
        )[i] by {
            lemma_byte_of_pixel(i, q as int);
        }
        assert(frame@ =~= painted(old(frame)@, run_map(q as int, 1, c)));
    }
}

/// Paints the pixels `start .. start + len` in colour `c`.
fn paint_run(frame: &mut [u8], start: usize, len: usize, c: Rgb)
    requires
        4 * (start + len) <= old(frame)@.len(),
    ensures
        final(frame)@ == painted(old(frame)@, run_map(start as int, len as int, c)),
{
    let flen = frame.len();
    let mut x: usize = 0;
    proof {
        lemma_painted_ext(old(frame)@, run_map(start as int, 0, c), no_pixel());
        assert(painted(old(frame)@, no_pixel()) =~= old(frame)@);
    }
    while x < len
        invariant
            4 * (start + len) <= old(frame)@.len(),
            flen == old(frame)@.len(),
            x <= len,
            frame@ == painted(old(frame)@, run_map(start as int, x as int, c)),
        decreases len - x,
    {
        let ghost before = frame@;
        paint_pixel(frame, start + x, c);
        proof {
            lemma_painted_twice(old(frame)@, run_map(start as int, x as int, c), run_map((start + x) as int, 1, c));
            lemma_painted_ext(
                old(frame)@,
                overlay(run_map(start as int, x as int, c), run_map((start + x) as int, 1, c)),
                run_map(start as int, x + 1, c),
            );
        }
        x = x + 1;
    }
}

/// Fills the frame with zeros (black and transparent).
pub fn clear_screen(frame: &mut [u8])
    ensures
        final(frame)@.len() == old(frame)@.len(),
        forall|i: int| 0 <= i < final(frame)@.len() ==> final(frame)@[i] == 0,
{
    let len = frame.len();
    let mut i: usize = 0;
    while i < len
        invariant
            len == frame@.len(),
            len == old(frame)@.len(),
            i <= len,
            forall|j: int| 0 <= j < i ==> frame@[j] == 0,
        decreases len - i,
    {
        frame[i] = 0;
        i = i + 1;
    }
}

/// The colour of the cell stored at `idx`.
pub open spec fn cell_colour(tab: Seq<u8>, colors: Seq<Rgb>, idx: int) -> Rgb {
    colors[tab[idx] as int]
}

/// The cell stored at `idx` exists and its category has a colour.
pub open spec fn cell_ok(tab: Seq<u8>, ncolors: int, idx: int) -> bool {
    0 <= idx < tab.len() && tab[idx] < ncolors
}

/// Cell `j * step` of the row that starts at index `off` exists and has a colour.
pub open spec fn row_cell_ok(tab: Seq<u8>, ncolors: int, off: int, step: int, j: int) -> bool {
    cell_ok(tab, ncolors, off + j * step)
}

/// How many of the cells `0 .. n` are drawn when every `step`-th is.
pub open spec fn runs(n: int, step: int) -> int {
    if n <= 0 { 0 } else { (n - 1) / step + 1 }
}

/// The cell column drawn at pixel `p`: the screen is `w` pixels wide, the drawing starts
/// at column `xo`, each drawn cell is `cs` pixels wide and every `step`-th cell is drawn.
pub open spec fn column_of(p: int, w: int, xo: int, cs: int, step: int) -> int {
    ((p % w - xo) / cs) * step
}

/// The pixels of screen row `py` drawn for the cells `0 .. n` of the row of the grid that
/// starts at index `off`, for the drawn cells before `upto`.
pub open spec fn row_map(
    w: int,
    n: int,
    cs: int,
    step: int,
    xo: int,
    py: int,
    off: int,
    tab: Seq<u8>,
    colors: Seq<Rgb>,
    upto: int,
) -> spec_fn(int) -> Option<Rgb> {
    |p: int|
        if 0 <= p && p / w == py && xo <= p % w && column_of(p, w, xo, cs, step) < upto
            && column_of(p, w, xo, cs, step) < n {
            Some(cell_colour(tab, colors, off + column_of(p, w, xo, cs, step)))
        } else {
            None
        }
}

/// Facts on the drawn cells: cell `j * step` is below `n` exactly when `j < runs(n, step)`.
proof fn lemma_runs(n: int, step: int, j: int)
    requires
        n > 0,
        step > 0,
        j >= 0,
    ensures
        (j * step < n) <==> (j < runs(n, step)),
        runs(n, step) >= 1,
{
    let q = (n - 1) / step;
    lemma_fundamental_div_mod(n - 1, step);
    assert(0 <= (n - 1) % step < step) by (nonlinear_arith)
        requires
            step > 0,
    ;
    assert(q >= 0) by (nonlinear_arith)
        requires
            n - 1 >= 0,
            step > 0,
            q == (n - 1) / step,
    ;
    if j * step < n {
        assert(j <= q) by (nonlinear_arith)
            requires
                j * step <= n - 1,
                n - 1 == step * q + (n - 1) % step,
                (n - 1) % step < step,
                step > 0,
                j >= 0,
        ;
    }
    if j <= q {
        assert(j * step <= q * step) by (nonlinear_arith)
            requires
                j <= q,
                step > 0,
        ;
        assert(q * step <= n - 1) by (nonlinear_arith)
            requires
                n - 1 == step * q + (n - 1) % step,
                (n - 1) % step >= 0,
        ;
    }
}

/// Pixel `p` of a screen `w` pixels wide lies in row `p / w`, column `p % w`.
proof fn lemma_pixel_position(p: int, w: int, py: int, px: int)
    requires
        w > 0,
        0 <= px < w,
        p == w * py + px,
    ensures
        p / w == py,
        p % w == px,
{
    assert(p == py * w + px) by (nonlinear_arith)
        requires
            p == w * py + px,
    ;
    lemma_fundamental_div_mod_converse(p, w, py, px);
}

/// Drawing cell `j * step` of a row after the cells before it draws the cells up to the
/// next drawn one.
proof fn lemma_row_extend(
    w: int,
    n: int,
    cs: int,
    step: int,
    xo: int,
    py: int,
    off: int,
    tab: Seq<u8>,
    colors: Seq<Rgb>,
    j: int,
)
    requires
        w > 0,
        cs > 0,
        step > 0,
        0 <= xo,
        0 <= py,
        0 <= j,
        j * step < n,
        xo + (j + 1) * cs <= w,
    ensures
        forall|p: int|
            #[trigger] overlay(
                row_map(w, n, cs, step, xo, py, off, tab, colors, j * step),
                run_map(w * py + xo + j * cs, cs, cell_colour(tab, colors, off + j * step)),
            )(p) == row_map(w, n, cs, step, xo, py, off, tab, colors, (j + 1) * step)(p),
{
    let start = w * py + xo + j * cs;
    let col = cell_colour(tab, colors, off + j * step);
    assert forall|p: int|
        #[trigger] overlay(
            row_map(w, n, cs, step, xo, py, off, tab, colors, j * step),
            run_map(start, cs, col),
        )(p) == row_map(w, n, cs, step, xo, py, off, tab, colors, (j + 1) * step)(p) by {
        assert((j + 1) * step == j * step + step) by (nonlinear_arith);
        assert(j * cs + cs <= w - xo) by (nonlinear_arith)
            requires
                xo + (j + 1) * cs <= w,
        ;
        if start <= p < start + cs {
            let x = p - start;
            let px = xo + j * cs + x;
            assert(j * cs >= 0) by (nonlinear_arith)
                requires
                    j >= 0,
                    cs > 0,
            ;
            lemma_pixel_position(p, w, py, px);
            assert(px - xo == j * cs + x);
            assert(px - xo == j * cs + x);
            lemma_fundamental_div_mod_converse(px - xo, cs, j, x);
            assert(column_of(p, w, xo, cs, step) == j * step);
        } else if 0 <= p && p / w == py && xo <= p % w {
            let px = p % w;
            let t = (px - xo) / cs;
            lemma_fundamental_div_mod(p, w);
            lemma_fundamental_div_mod(px - xo, cs);
            assert(0 <= px < w) by (nonlinear_arith)
                requires
                    w > 0,
                    px == p % w,
            ;
            assert(0 <= (px - xo) % cs < cs) by (nonlinear_arith)
                requires
                    cs > 0,
            ;
            if column_of(p, w, xo, cs, step) < (j + 1) * step && column_of(p, w, xo, cs, step) >= j * step {
                assert(t == j) by (nonlinear_arith)
                    requires
                        t * step < (j + 1) * step,
                        t * step >= j * step,
                        step > 0,
                ;
                assert(p == w * py + px);
                assert(cs * t == j * cs) by (nonlinear_arith)
                    requires
                        t == j,
                ;
                assert(px - xo == cs * t + (px - xo) % cs);
                assert(start <= p < start + cs);
                assert(false);
            }
        }
    }
}

/// Draws screen row `py` for the row of the grid that starts at index `off`: cell
/// `j * step` is drawn as `cs` pixels from column `xo + j * cs`.
fn paint_row(
    frame: &mut [u8],
    w: usize,
    n: usize,
    cs: usize,
    step: usize,
    xo: usize,
    py: usize,
    off: usize,
    tab: &Vec<u8>,
    colors: &Vec<Rgb>,
)
    requires
        w > 0,
        n > 0,
        cs > 0,
        step > 0,
        xo + runs(n as int, step as int) * cs <= w,
        n * cs <= usize::MAX,
        4 * (w * py + w) <= old(frame)@.len(),
        forall|j: int|
            0 <= j && j * step < n ==> #[trigger] row_cell_ok(tab@, colors@.len() as int, off as int, step as int, j),
    ensures
        final(frame)@ == painted(
            old(frame)@,
            row_map(w as int, n as int, cs as int, step as int, xo as int, py as int, off as int, tab@, colors@, n as int),
        ),
{
    let flen = frame.len();
    let nb_runs = (n - 1) / step + 1;
    let mut j: usize = 0;
    proof {
        lemma_runs(n as int, step as int, 0);
        lemma_painted_ext(
            old(frame)@,
            row_map(w as int, n as int, cs as int, step as int, xo as int, py as int, off as int, tab@, colors@, 0),
            no_pixel(),
        );
        assert(painted(old(frame)@, no_pixel()) =~= old(frame)@);
    }
    while j < nb_runs
        invariant
            w > 0,
            n > 0,
            cs > 0,
            step > 0,
            nb_runs == runs(n as int, step as int),
            flen == old(frame)@.len(),
            xo + nb_runs * cs <= w,
            n * cs <= usize::MAX,
            4 * (w * py + w) <= old(frame)@.len(),
            forall|jj: int|
                0 <= jj && jj * step < n ==> #[trigger] row_cell_ok(tab@, colors@.len() as int, off as int, step as int, jj),
            j <= nb_runs,
            frame@ == painted(
                old(frame)@,
                row_map(w as int, n as int, cs as int, step as int, xo as int, py as int, off as int, tab@, colors@, j * step),
            ),
        decreases nb_runs - j,
    {
        proof {
            lemma_runs(n as int, step as int, j as int);
            assert(row_cell_ok(tab@, colors@.len() as int, off as int, step as int, j as int));
            assert(xo + (j + 1) * cs <= w) by (nonlinear_arith)
                requires
                    j + 1 <= nb_runs,
                    xo + nb_runs * cs <= w,
                    cs > 0,
            ;
        }
        let cell_x = j * step;
        let tlen = tab.len();
        assert(off + cell_x < tlen);
        let v = tab[off + cell_x] as usize;
        let colour = colors[v];
        assert(cell_x * cs < n * cs) by (nonlinear_arith)
            requires
                cell_x < n,
                cs > 0,
        ;
        assert((cell_x * cs) as int / (step as int) == j * cs) by {
            assert(cell_x * cs == (j * cs) * step) by (nonlinear_arith)
                requires
                    cell_x == j * step,
            ;
            lemma_fundamental_div_mod_converse(cell_x * cs, step as int, j * cs, 0);
        }
        assert(w * py + xo + j * cs + cs <= w * py + w) by (nonlinear_arith)
            requires
                xo + (j + 1) * cs <= w,
        ;
        let start = xo + cell_x * cs / step + w * py;
        paint_run(frame, start, cs, colour);
        proof {
            let rm = row_map(w as int, n as int, cs as int, step as int, xo as int, py as int, off as int, tab@, colors@, j * step);
            let run = run_map(start as int, cs as int, colour);
            lemma_painted_twice(old(frame)@, rm, run);
            lemma_row_extend(w as int, n as int, cs as int, step as int, xo as int, py as int, off as int, tab@, colors@, j as int);
            assert(start == w * py + xo + j * cs);
            assert(colour == cell_colour(tab@, colors@, off + j * step));
            assert(run == run_map(w * py + xo + j * cs, cs as int, cell_colour(tab@, colors@, off + j * step)));
            lemma_painted_ext(
                old(frame)@,
                overlay(rm, run),
                row_map(w as int, n as int, cs as int, step as int, xo as int, py as int, off as int, tab@, colors@, (j + 1) * step),
            );
        }
        j = j + 1;
    }
    proof {
        lemma_runs(n as int, step as int, nb_runs as int);
        lemma_painted_ext(
            old(frame)@,
            row_map(w as int, n as int, cs as int, step as int, xo as int, py as int, off as int, tab@, colors@, nb_runs * step),
            row_map(w as int, n as int, cs as int, step as int, xo as int, py as int, off as int, tab@, colors@, n as int),
        );
    }
}

/// The screen rows `yb .. yb + rows` drawn for the row of the grid that starts at index
/// `off` (a band of the drawing).
pub open spec fn band_map(
    w: int,
    n: int,
    cs: int,
    step: int,
    xo: int,
    yb: int,
    off: int,
    tab: Seq<u8>,
    colors: Seq<Rgb>,
    rows: int,
) -> spec_fn(int) -> Option<Rgb> {
    |p: int|
        if 0 <= p && yb <= p / w < yb + rows && xo <= p % w && column_of(p, w, xo, cs, step) < n {
            Some(cell_colour(tab, colors, off + column_of(p, w, xo, cs, step)))
        } else {
            None
        }
}

/// Draws the band of `cs` screen rows from row `yb` for the row of the grid that starts at
/// index `off`.
fn paint_band(
    frame: &mut [u8],
    w: usize,
    n: usize,
    cs: usize,
    step: usize,
    xo: usize,
    yb: usize,
    off: usize,
    tab: &Vec<u8>,
    colors: &Vec<Rgb>,
)
    requires
        w > 0,
        n > 0,
        cs > 0,
        step > 0,
        xo + runs(n as int, step as int) * cs <= w,
        n * cs <= usize::MAX,
        4 * (w * (yb + cs)) <= old(frame)@.len(),
        forall|j: int|
            0 <= j && j * step < n ==> #[trigger] row_cell_ok(tab@, colors@.len() as int, off as int, step as int, j),
    ensures
        final(frame)@ == painted(
            old(frame)@,
            band_map(w as int, n as int, cs as int, step as int, xo as int, yb as int, off as int, tab@, colors@, cs as int),
        ),
{
    let flen = frame.len();
    assert(yb + cs <= w * (yb + cs)) by (nonlinear_arith)
        requires
            w > 0,
    ;
    let mut y: usize = 0;
    proof {
        lemma_painted_ext(
            old(frame)@,
            band_map(w as int, n as int, cs as int, step as int, xo as int, yb as int, off as int, tab@, colors@, 0),
            no_pixel(),
        );
        assert(painted(old(frame)@, no_pixel()) =~= old(frame)@);
    }
    while y < cs
        invariant
            w > 0,
            n > 0,
            cs > 0,
            step > 0,
            xo + runs(n as int, step as int) * cs <= w,
            n * cs <= usize::MAX,
            4 * (w * (yb + cs)) <= old(frame)@.len(),
            flen == old(frame)@.len(),
            yb + cs <= w * (yb + cs),
            forall|j: int|
                0 <= j && j * step < n ==> #[trigger] row_cell_ok(tab@, colors@.len() as int, off as int, step as int, j),
            y <= cs,
            frame@ == painted(
                old(frame)@,
                band_map(w as int, n as int, cs as int, step as int, xo as int, yb as int, off as int, tab@, colors@, y as int),
            ),
        decreases cs - y,
    {
        assert(w * (yb + y) + w <= w * (yb + cs)) by (nonlinear_arith)
            requires
                y < cs,
                w > 0,
        ;
        paint_row(frame, w, n, cs, step, xo, yb + y, off, tab, colors);
        proof {
            let bm = band_map(w as int, n as int, cs as int, step as int, xo as int, yb as int, off as int, tab@, colors@, y as int);
            let rm = row_map(w as int, n as int, cs as int, step as int, xo as int, (yb + y) as int, off as int, tab@, colors@, n as int);
            lemma_painted_twice(old(frame)@, bm, rm);
            lemma_painted_ext(
                old(frame)@,
                overlay(bm, rm),
                band_map(w as int, n as int, cs as int, step as int, xo as int, yb as int, off as int, tab@, colors@, y + 1),
            );
        }
        y = y + 1;
    }
}

/// The cell row drawn at pixel `p`: drawing starts at screen row `yo`.
pub open spec fn row_of(p: int, w: int, yo: int, cs: int, step: int) -> int {
    ((p / w - yo) / cs) * step
}

/// Cell `(jx * step, jy * step)` of a grid of side `n` exists and has a colour.
pub open spec fn shown_cell_ok(tab: Seq<u8>, ncolors: int, n: int, step: int, jy: int, jx: int) -> bool {
    row_cell_ok(tab, ncolors, n * (jy * step), step, jx)
}

/// The pixels drawn for the cell rows before `upto` of a grid of side `n` stored row after
/// row, drawn from screen column `xo` and row `yo`.
pub open spec fn grid_map(
    w: int,
    n: int,
    cs: int,
    step: int,
    xo: int,
    yo: int,
    tab: Seq<u8>,
    colors: Seq<Rgb>,
    upto: int,
) -> spec_fn(int) -> Option<Rgb> {
    |p: int|
        if 0 <= p && yo <= p / w && row_of(p, w, yo, cs, step) < upto && row_of(p, w, yo, cs, step) < n
            && xo <= p % w && column_of(p, w, xo, cs, step) < n {
            Some(cell_colour(tab, colors, n * row_of(p, w, yo, cs, step) + column_of(p, w, xo, cs, step)))
        } else {
            None
        }
}

/// Drawing the band of cell row `jy * step` after the rows before it draws the cell rows up
/// to the next drawn one.
proof fn lemma_grid_extend(
    w: int,
    n: int,
    cs: int,
    step: int,
    xo: int,
    yo: int,
    tab: Seq<u8>,
    colors: Seq<Rgb>,
    jy: int,
)
    requires
        w > 0,
        cs > 0,
        step > 0,
        0 <= xo,
        0 <= yo,
        0 <= jy,
        jy * step < n,
    ensures
        forall|p: int|
            #[trigger] overlay(
                grid_map(w, n, cs, step, xo, yo, tab, colors, jy * step),
                band_map(w, n, cs, step, xo, yo + jy * cs, n * (jy * step), tab, colors, cs),
            )(p) == grid_map(w, n, cs, step, xo, yo, tab, colors, (jy + 1) * step)(p),
{
    let yb = yo + jy * cs;
    assert forall|p: int|
        #[trigger] overlay(
            grid_map(w, n, cs, step, xo, yo, tab, colors, jy * step),
            band_map(w, n, cs, step, xo, yb, n * (jy * step), tab, colors, cs),
        )(p) == grid_map(w, n, cs, step, xo, yo, tab, colors, (jy + 1) * step)(p) by {
        assert((jy + 1) * step == jy * step + step) by (nonlinear_arith);
        assert(jy * cs >= 0) by (nonlinear_arith)
            requires
                jy >= 0,
                cs > 0,
        ;
        if 0 <= p && yb <= p / w < yb + cs {
            let py = p / w;
            lemma_fundamental_div_mod_converse(py - yo, cs, jy, py - yb);
            assert(row_of(p, w, yo, cs, step) == jy * step);
        } else if 0 <= p && yo <= p / w {
            let py = p / w;
            let t = (py - yo) / cs;
            lemma_fundamental_div_mod(py - yo, cs);
            assert(0 <= (py - yo) % cs < cs) by (nonlinear_arith)
                requires
                    cs > 0,
            ;
            if row_of(p, w, yo, cs, step) < (jy + 1) * step && row_of(p, w, yo, cs, step) >= jy * step {
                assert(t == jy) by (nonlinear_arith)
                    requires
                        t * step < (jy + 1) * step,
                        t * step >= jy * step,
                        step > 0,
                ;
                assert(cs * t == jy * cs) by (nonlinear_arith)
                    requires
                        t == jy,
                ;
                assert(yb <= py < yb + cs);
                assert(false);
            }
        }
    }
}

/// Draws the cell rows `0, step, 2 * step, ...` of a grid of side `n`, row `jy * step` as
/// the band of `cs` screen rows from row `yo + jy * cs`.
fn paint_grid(
    frame: &mut [u8],
    w: usize,
    n: usize,
    cs: usize,
    step: usize,
    xo: usize,
    yo: usize,
    tab: &Vec<u8>,
    colors: &Vec<Rgb>,
)
    requires
        w > 0,
        n > 0,
        cs > 0,
        step > 0,
        xo + runs(n as int, step as int) * cs <= w,
        n * cs <= usize::MAX,
        4 * (w * (yo + runs(n as int, step as int) * cs)) <= old(frame)@.len(),
        forall|jy: int, jx: int|
            0 <= jy && jy * step < n && 0 <= jx && jx * step < n ==> #[trigger] shown_cell_ok(
                tab@,
                colors@.len() as int,
                n as int,
                step as int,
                jy,
                jx,
            ),
    ensures
        final(frame)@ == painted(
            old(frame)@,
            grid_map(w as int, n as int, cs as int, step as int, xo as int, yo as int, tab@, colors@, n as int),
        ),
{
    let flen = frame.len();
    let tlen = tab.len();
    let nb_runs = (n - 1) / step + 1;
    let mut jy: usize = 0;
    proof {
        lemma_runs(n as int, step as int, 0);
        lemma_painted_ext(
            old(frame)@,
            grid_map(w as int, n as int, cs as int, step as int, xo as int, yo as int, tab@, colors@, 0),
            no_pixel(),
        );
        assert(painted(old(frame)@, no_pixel()) =~= old(frame)@);
    }
    while jy < nb_runs
        invariant
            w > 0,
            n > 0,
            cs > 0,
            step > 0,
            flen == old(frame)@.len(),
            tlen == tab@.len(),
            nb_runs == runs(n as int, step as int),
            xo + nb_runs * cs <= w,
            n * cs <= usize::MAX,
            4 * (w * (yo + nb_runs * cs)) <= old(frame)@.len(),
            forall|jy2: int, jx: int|
                0 <= jy2 && jy2 * step < n && 0 <= jx && jx * step < n ==> #[trigger] shown_cell_ok(
                    tab@,
                    colors@.len() as int,
                    n as int,
                    step as int,
                    jy2,
                    jx,
                ),
            jy <= nb_runs,
            frame@ == painted(
                old(frame)@,
                grid_map(w as int, n as int, cs as int, step as int, xo as int, yo as int, tab@, colors@, jy * step),
            ),
        decreases nb_runs - jy,
    {
        proof {
            lemma_runs(n as int, step as int, jy as int);
            assert(shown_cell_ok(tab@, colors@.len() as int, n as int, step as int, jy as int, 0));
            assert(yo + jy * cs + cs <= yo + nb_runs * cs) by (nonlinear_arith)
                requires
                    jy + 1 <= nb_runs,
                    cs > 0,
            ;
            assert(w * (yo + jy * cs + cs) <= w * (yo + nb_runs * cs)) by (nonlinear_arith)
                requires
                    yo + jy * cs + cs <= yo + nb_runs * cs,
                    w > 0,
            ;
            assert(jy * cs <= nb_runs * cs) by (nonlinear_arith)
                requires
                    jy <= nb_runs,
                    cs > 0,
            ;
            assert(nb_runs * cs <= w) by (nonlinear_arith)
                requires
                    xo + nb_runs * cs <= w,
            ;
            assert(yo + nb_runs * cs <= w * (yo + nb_runs * cs)) by (nonlinear_arith)
                requires
                    w > 0,
                    yo + nb_runs * cs >= 0,
            ;
        }
        let cell_y = jy * step;
        assert(n * cell_y < tlen);
        let off = n * cell_y;
        assert(cell_y * cs < n * cs) by (nonlinear_arith)
            requires
                cell_y < n,
                cs > 0,
        ;
        assert((cell_y * cs) as int / (step as int) == jy * cs) by {
            assert(cell_y * cs == (jy * cs) * step) by (nonlinear_arith)
                requires
                    cell_y == jy * step,
            ;
            lemma_fundamental_div_mod_converse(cell_y * cs, step as int, jy * cs, 0);
        }
        let yb = yo + cell_y * cs / step;
        proof {
            assert forall|j: int|
                0 <= j && j * step < n implies #[trigger] row_cell_ok(tab@, colors@.len() as int, off as int, step as int, j) by {
                assert(shown_cell_ok(tab@, colors@.len() as int, n as int, step as int, jy as int, j));
            }
        }
        paint_band(frame, w, n, cs, step, xo, yb, off, tab, colors);
        proof {
            let gm = grid_map(w as int, n as int, cs as int, step as int, xo as int, yo as int, tab@, colors@, jy * step);
            let bm = band_map(w as int, n as int, cs as int, step as int, xo as int, yb as int, off as int, tab@, colors@, cs as int);
            lemma_painted_twice(old(frame)@, gm, bm);
            lemma_grid_extend(w as int, n as int, cs as int, step as int, xo as int, yo as int, tab@, colors@, jy as int);
            assert(bm == band_map(w as int, n as int, cs as int, step as int, xo as int, yo + jy * cs, n * (jy * step), tab@, colors@, cs as int));
            lemma_painted_ext(
                old(frame)@,
                overlay(gm, bm),
                grid_map(w as int, n as int, cs as int, step as int, xo as int, yo as int, tab@, colors@, (jy + 1) * step),
            );
        }
        jy = jy + 1;
    }
    proof {
        lemma_runs(n as int, step as int, nb_runs as int);
        lemma_painted_ext(
            old(frame)@,
            grid_map(w as int, n as int, cs as int, step as int, xo as int, yo as int, tab@, colors@, nb_runs * step),
            grid_map(w as int, n as int, cs as int, step as int, xo as int, yo as int, tab@, colors@, n as int),
        );
    }
}

/// The size in pixels of a drawn cell, for a canvas of `c0` pixels and `n` cells.
pub open spec fn cell_size_for(c0: int, n: int) -> int {
    if c0 / n > 1 { c0 / n } else { 1 }
}

/// One cell in `cell_step_for` is drawn, for a canvas of `c0` pixels and `n` cells.
pub open spec fn cell_step_for(c0: int, n: int) -> int {
    n / c0 + 1
}

/// The size in pixels of the drawing of `n` cells on a canvas of `c0` pixels.
pub open spec fn canvas_for(c0: int, n: int) -> int {
    cell_size_for(c0, n) * n / cell_step_for(c0, n)
}

/// The offset that centres a drawing of `canvas` pixels in `extent` pixels.
pub open spec fn offset_for(extent: int, canvas: int, cs: int) -> int {
    (extent - canvas + canvas % cs) / 2
}

/// The sizes of the drawing fit the screen: a canvas of `c0 <= extent` pixels for `n`
/// cells is centred in `extent` pixels and holds every drawn cell.
proof fn lemma_layout(extent: int, c0: int, n: int)
    requires
        0 < c0 <= extent,
        n > 0,
    ensures
        cell_size_for(c0, n) >= 1,
        cell_step_for(c0, n) >= 1,
        0 <= canvas_for(c0, n) <= extent,
        canvas_for(c0, n) % cell_size_for(c0, n) == 0,
        offset_for(extent, canvas_for(c0, n), cell_size_for(c0, n)) >= 0,
        offset_for(extent, canvas_for(c0, n), cell_size_for(c0, n))
            + runs(n, cell_step_for(c0, n)) * cell_size_for(c0, n) <= extent,
        n * cell_size_for(c0, n) <= if c0 > n { c0 } else { n },
{
    let cs = cell_size_for(c0, n);
    let step = cell_step_for(c0, n);
    let canvas = canvas_for(c0, n);
    let off = offset_for(extent, canvas, cs);
    lemma_fundamental_div_mod(c0, n);
    lemma_fundamental_div_mod(n, c0);
    assert(0 <= c0 % n < n && 0 <= n % c0 < c0 && c0 / n >= 0 && n / c0 >= 0) by (nonlinear_arith)
        requires
            c0 > 0,
            n > 0,
    ;
    if n < c0 {
        assert(n / c0 == 0) by {
            lemma_fundamental_div_mod_converse(n, c0, 0, n);
        }
        assert(c0 / n >= 1) by (nonlinear_arith)
            requires
                c0 == n * (c0 / n) + c0 % n,
                c0 % n < n,
                n < c0,
        ;
        assert(cs == c0 / n);
        assert(step == 1);
        assert(canvas == cs * n) by {
            lemma_fundamental_div_mod_converse(cs * n, 1, cs * n, 0);
        }
        assert(cs * n <= c0) by (nonlinear_arith)
            requires
                c0 == n * cs + c0 % n,
                c0 % n >= 0,
        ;
        assert(canvas % cs == 0) by {
            lemma_fundamental_div_mod_converse(canvas, cs, n, 0);
        }
        assert(runs(n, 1) == n) by {
            lemma_fundamental_div_mod_converse(n - 1, 1, n - 1, 0);
        }
        assert(n * cs == cs * n) by (nonlinear_arith);
    } else {
        assert(c0 / n <= 1) by (nonlinear_arith)
            requires
                c0 == n * (c0 / n) + c0 % n,
                c0 % n >= 0,
                c0 <= n,
                n > 0,
        ;
        assert(cs == 1);
        assert(step >= 2) by (nonlinear_arith)
            requires
                n == c0 * (n / c0) + n % c0,
                n % c0 < c0,
                c0 <= n,
                step == n / c0 + 1,
        ;
        assert(canvas == n / step);
        lemma_fundamental_div_mod(n, step);
        assert(0 <= n % step < step) by (nonlinear_arith)
            requires
                step > 0,
        ;
        assert(canvas % 1 == 0);
        assert(n < step * c0) by (nonlinear_arith)
            requires
                n == c0 * (n / c0) + n % c0,
                n % c0 < c0,
                step == n / c0 + 1,
        ;
        assert(canvas < c0) by (nonlinear_arith)
            requires
                n == step * canvas + n % step,
                n % step >= 0,
                n < step * c0,
                step > 0,
        ;
        assert(canvas >= 0) by (nonlinear_arith)
            requires
                n == step * canvas + n % step,
                n % step < step,
                n > 0,
                step > 0,
        ;
        lemma_fundamental_div_mod(n - 1, step);
        assert(runs(n, step) <= canvas + 1) by (nonlinear_arith)
            requires
                n == step * canvas + n % step,
                n % step >= 0,
                n - 1 == step * ((n - 1) / step) + (n - 1) % step,
                0 <= (n - 1) % step < step,
                runs(n, step) == (n - 1) / step + 1,
                step > 0,
        ;
    }
}

/// The canvas of the drawing in dimension 2: the smaller side of the screen.
pub open spec fn canvas_d2(w: int, h: int) -> int {
    if w > h { h } else { w }
}

/// The pixels drawn in dimension 2 for a grid of side `n` on a screen of `w` by `h` pixels:
/// a square canvas centred on the screen.
pub open spec fn render_d2_map(w: int, h: int, n: int, tab: Seq<u8>, colors: Seq<Rgb>) -> spec_fn(int) -> Option<Rgb> {
    let c0 = canvas_d2(w, h);
    let cs = cell_size_for(c0, n);
    let canvas = canvas_for(c0, n);
    grid_map(w, n, cs, cell_step_for(c0, n), offset_for(w, canvas, cs), offset_for(h, canvas, cs), tab, colors, n)
}

/// The inputs on which the drawing in dimension 2 is defined: a screen and a grid that are
/// not empty, a frame that holds the whole screen at four bytes per pixel (as the pixel
/// buffer of a window does), and a colour for each drawn cell.
pub open spec fn render_d2_ok(frame_len: int, w: int, h: int, n: int, tab: Seq<u8>, ncolors: int) -> bool {
    let step = cell_step_for(canvas_d2(w, h), n);
    &&& w > 0
    &&& h > 0
    &&& 0 < n < usize::MAX
    &&& 4 * (w * h) <= frame_len
    &&& forall|jy: int, jx: int|
        0 <= jy && jy * step < n && 0 <= jx && jx * step < n ==> #[trigger] shown_cell_ok(tab, ncolors, n, step, jy, jx)
}

/// Draws a grid of dimension 2 and side `n` into `frame`, a screen of `screen_width` by
/// `screen_height` pixels (see `render_d2_map`).
pub fn render_d2<S: SimulationDevice>(
    frame: &mut [u8],
    screen_width: usize,
    screen_height: usize,
    tab: &Vec<u8>,
    cell_to_color: &Vec<Rgb>,
    n: u32,
)
    requires
        render_d2_ok(old(frame)@.len() as int, screen_width as int, screen_height as int, n as int, tab@, cell_to_color@.len() as int),
    ensures
        final(frame)@ == painted(old(frame)@, render_d2_map(screen_width as int, screen_height as int, n as int, tab@, cell_to_color@)),
{
    let s = n as usize;
    let mut canvas_size = if screen_width > screen_height {
        // horizontal padding
        screen_height
    } else {
        // vertical padding
        screen_width
    };
    let ghost c0 = canvas_size as int;
    proof {
        lemma_layout(screen_width as int, c0, s as int);
        lemma_layout(screen_height as int, c0, s as int);
    }
    let cell_size = if canvas_size / s > 1 { canvas_size / s } else { 1 };
    let cell_step = s / canvas_size + 1;
    canvas_size = cell_size * s / cell_step;
    let canvas_x_offset = (screen_width - canvas_size + (canvas_size % cell_size)) / 2;
    let canvas_y_offset = (screen_height - canvas_size + (canvas_size % cell_size)) / 2;
    proof {
        assert(c0 == canvas_d2(screen_width as int, screen_height as int));
        assert(cell_step == cell_step_for(c0, s as int));
        let runs_cs = runs(s as int, cell_step as int) * cell_size;
        assert(screen_width * (canvas_y_offset + runs_cs) <= screen_width * screen_height) by (nonlinear_arith)
            requires
                canvas_y_offset + runs_cs <= screen_height,
                screen_width > 0,
        ;
    }
    paint_grid(frame, screen_width, s, cell_size, cell_step, canvas_x_offset, canvas_y_offset, tab, cell_to_color);
}

/// The width of the canvas of the drawing in dimension 1, a strip of `n` cells: the width
/// of the screen divided by `n` when the screen is wider than `n` times its height, the
/// width of the screen otherwise.
pub open spec fn canvas_d1(w: int, h: int, n: int) -> int {
    if w > n * h { w / n } else { w }
}

/// The first screen row of the strip drawn in dimension 1.
pub open spec fn strip_row_d1(w: int, h: int, n: int) -> int {
    let c0 = canvas_d1(w, h, n);
    let cs = cell_size_for(c0, n);
    (h - cs / cell_step_for(c0, n) + cs) / 2
}

/// The pixels drawn in dimension 1 for a grid of `n` cells on a screen of `w` by `h`
/// pixels: a strip one cell high.
pub open spec fn render_d1_map(w: int, h: int, n: int, tab: Seq<u8>, colors: Seq<Rgb>) -> spec_fn(int) -> Option<Rgb> {
    let c0 = canvas_d1(w, h, n);
    let cs = cell_size_for(c0, n);
    band_map(w, n, cs, cell_step_for(c0, n), offset_for(w, canvas_for(c0, n), cs), strip_row_d1(w, h, n), 0, tab, colors, cs)
}

/// The inputs on which the drawing in dimension 1 is defined: a canvas that is not empty,
/// a strip that fits the height of the screen, a frame that holds the whole screen at four
/// bytes per pixel (as the pixel buffer of a window does), and a colour for each drawn cell.
pub open spec fn render_d1_ok(frame_len: int, w: int, h: int, n: int, tab: Seq<u8>, ncolors: int) -> bool {
    let c0 = canvas_d1(w, h, n);
    let step = cell_step_for(c0, n);
    &&& 0 < n < usize::MAX
    &&& c0 > 0
    &&& strip_row_d1(w, h, n) + cell_size_for(c0, n) <= h
    &&& 4 * (w * h) <= frame_len
    &&& forall|jx: int| 0 <= jx && jx * step < n ==> #[trigger] row_cell_ok(tab, ncolors, 0, step, jx)
}

/// Draws a grid of dimension 1 and `n` cells into `frame`, a screen of `screen_width` by
/// `screen_height` pixels (see `render_d1_map`).
pub fn render_d1<S: SimulationDevice>(
    frame: &mut [u8],
    screen_width: usize,
    screen_height: usize,
    tab: &Vec<u8>,
    cell_to_color: &Vec<Rgb>,
    n: u32,
)
    requires
        render_d1_ok(old(frame)@.len() as int, screen_width as int, screen_height as int, n as int, tab@, cell_to_color@.len() as int),
    ensures
        final(frame)@ == painted(old(frame)@, render_d1_map(screen_width as int, screen_height as int, n as int, tab@, cell_to_color@)),
{
    let s = n as usize;
    let flen = frame.len();
    assert((n as u128) * (screen_height as u128) <= 0xffff_ffffu128 * 0xffff_ffff_ffff_ffffu128) by (nonlinear_arith)
        requires
            n <= 0xffff_ffffu128,
            screen_height <= 0xffff_ffff_ffff_ffffu128,
    ;
    let wide = (screen_width as u128) > (n as u128) * (screen_height as u128);
    let mut canvas_width = if wide {
        // horizontal padding
        screen_width / s
    } else {
        // vertical padding
        screen_width
    };
    let ghost c0 = canvas_width as int;
    proof {
        assert(c0 == canvas_d1(screen_width as int, screen_height as int, n as int));
        assert(c0 <= screen_width) by (nonlinear_arith)
            requires
                c0 == canvas_d1(screen_width as int, screen_height as int, n as int),
                n > 0,
        ;
        lemma_layout(screen_width as int, c0, s as int);
    }
    let cell_size = if canvas_width / s > 1 { canvas_width / s } else { 1 };
    let cell_step = s / canvas_width + 1;
    canvas_width = cell_size * s / cell_step;
    let canvas_height = cell_size / cell_step;
    assert(canvas_height <= cell_size) by (nonlinear_arith)
        requires
            canvas_height == cell_size / cell_step,
            cell_step >= 1,
            cell_size >= 1,
    ;
    let canvas_x_offset = (screen_width - canvas_width + (canvas_width % cell_size)) / 2;
    proof {
        assert(cell_size <= screen_height);
        assert(screen_width >= 1);
        assert(screen_height <= screen_width * screen_height) by (nonlinear_arith)
            requires
                screen_width >= 1,
        ;
    }
    let canvas_y_offset = (screen_height - canvas_height + cell_size) / 2;
    proof {
        assert(canvas_y_offset == strip_row_d1(screen_width as int, screen_height as int, n as int));
        assert(screen_width * (canvas_y_offset + cell_size) <= screen_width * screen_height) by (nonlinear_arith)
            requires
                canvas_y_offset + cell_size <= screen_height,
                screen_width > 0,
        ;
    }
    paint_band(frame, screen_width, s, cell_size, cell_step, canvas_x_offset, canvas_y_offset, 0, tab, cell_to_color);
}

/// The inputs on which `render` draws a grid of dimension `d`: those of `render_d1` in
/// dimension 1, those of `render_d2` in dimension 2, none in the other dimensions.
pub open spec fn render_defined(frame_len: int, w: int, h: int, n: int, tab: Seq<u8>, ncolors: int, d: int) -> bool {
    (d == 1 && render_d1_ok(frame_len, w, h, n, tab, ncolors)) || (d == 2 && render_d2_ok(frame_len, w, h, n, tab, ncolors))
}

/// The pixels that `render` draws for a grid of dimension `d`.
pub open spec fn render_map(w: int, h: int, n: int, tab: Seq<u8>, colors: Seq<Rgb>, d: int) -> spec_fn(int) -> Option<Rgb> {
    if d == 1 {
        render_d1_map(w, h, n, tab, colors)
    } else {
        render_d2_map(w, h, n, tab, colors)
    }
}

/// `render` in dimension 1 is `render_d1` and in dimension 2 `render_d2`: the same inputs
/// and the same frame.
pub proof fn law_render_by_dimension(frame_len: int, w: int, h: int, n: int, tab: Seq<u8>, colors: Seq<Rgb>)
    ensures
        render_defined(frame_len, w, h, n, tab, colors.len() as int, 1) == render_d1_ok(frame_len, w, h, n, tab, colors.len() as int),
        render_defined(frame_len, w, h, n, tab, colors.len() as int, 2) == render_d2_ok(frame_len, w, h, n, tab, colors.len() as int),
        render_map(w, h, n, tab, colors, 1) == render_d1_map(w, h, n, tab, colors),
        render_map(w, h, n, tab, colors, 2) == render_d2_map(w, h, n, tab, colors),
        forall|d: int| d != 1 && d != 2 ==> !#[trigger] render_defined(frame_len, w, h, n, tab, colors.len() as int, d),
{
}

/// Draws the grid of dimension `d` into `frame`: a strip in dimension 1, a square in
/// dimension 2 (the other dimensions are not drawn).
pub fn render<S: SimulationDevice>(
    frame: &mut [u8],
    screen_width: usize,
    screen_height: usize,
    tab: &Vec<u8>,
    cell_to_color: &Vec<Rgb>,
    n: u32,
    d: u8,
)
    requires
        render_defined(old(frame)@.len() as int, screen_width as int, screen_height as int, n as int, tab@, cell_to_color@.len() as int, d as int),
    ensures
        final(frame)@ == painted(old(frame)@, render_map(screen_width as int, screen_height as int, n as int, tab@, cell_to_color@, d as int)),
{
    if d == 1 {
        render_d1::<S>(frame, screen_width, screen_height, tab, cell_to_color, n);
    } else {
        render_d2::<S>(frame, screen_width, screen_height, tab, cell_to_color, n);
    }
}

/// Whether the drawn cells `jx * step`, for `jx < runs(n, step)`, of the row that starts at
/// index `off` all exist and have a colour.
fn row_cells_ok(tab: &Vec<u8>, ncolors: usize, off: usize, n: usize, step: usize) -> (ok: bool)
    requires
        n > 0,
        step > 0,
    ensures
        ok == forall|jx: int| 0 <= jx && jx * step < n ==> #[trigger] row_cell_ok(tab@, ncolors as int, off as int, step as int, jx),
{
    let tlen = tab.len();
    let nb_runs = (n - 1) / step + 1;
    let mut jx: usize = 0;
    proof {
        lemma_runs(n as int, step as int, 0);
    }
    while jx < nb_runs
        invariant
            n > 0,
            step > 0,
            nb_runs == runs(n as int, step as int),
            tlen == tab@.len(),
            jx <= nb_runs,
            forall|j: int| 0 <= j < jx ==> #[trigger] row_cell_ok(tab@, ncolors as int, off as int, step as int, j),
        decreases nb_runs - jx,
    {
        proof {
            lemma_runs(n as int, step as int, jx as int);
        }
        let cell_x = jx * step;
        let idx = match off.checked_add(cell_x) {
            Some(i) => i,
            None => {
                proof {
                    assert(!row_cell_ok(tab@, ncolors as int, off as int, step as int, jx as int));
                }
                return false;
            },
        };
        if idx >= tab.len() || tab[idx] as usize >= ncolors {
            proof {
                assert(!row_cell_ok(tab@, ncolors as int, off as int, step as int, jx as int));
            }
            return false;
        }
        jx = jx + 1;
    }
    proof {
        assert forall|j: int| 0 <= j && j * step < n implies #[trigger] row_cell_ok(tab@, ncolors as int, off as int, step as int, j) by {
            lemma_runs(n as int, step as int, j);
        }
    }
    true
}

/// Whether `render` can draw the grid: the inputs on which the drawing is defined.
pub fn render_ok(frame_len: usize, screen_width: usize, screen_height: usize, tab: &Vec<u8>, ncolors: usize, n: u32, d: u8) -> (ok: bool)
    ensures
        ok == render_defined(frame_len as int, screen_width as int, screen_height as int, n as int, tab@, ncolors as int, d as int),
{
    let s = n as usize;
    if s == 0 || s == usize::MAX {
        return false;
    }
    let frame_fits = match screen_width.checked_mul(screen_height) {
        Some(p) => match p.checked_mul(4) {
            Some(b) => b <= frame_len,
            None => false,
        },
        None => false,
    };
    if !frame_fits {
        return false;
    }
    if d == 2 {
        if screen_width == 0 || screen_height == 0 {
            return false;
        }
        let c0 = if screen_width > screen_height { screen_height } else { screen_width };
        let step = s / c0 + 1;
        let nb_runs = (s - 1) / step + 1;
        let tlen = tab.len();
        proof {
            lemma_runs(s as int, step as int, 0);
        }
        let mut jy: usize = 0;
        while jy < nb_runs
            invariant
                s > 0,
                step > 0,
                step == cell_step_for(canvas_d2(screen_width as int, screen_height as int), s as int),
                s == n,
                d == 2,
                nb_runs == runs(s as int, step as int),
                tlen == tab@.len(),
                jy <= nb_runs,
                forall|j: int, jx: int|
                    0 <= j < jy && 0 <= jx && jx * step < s ==> #[trigger] shown_cell_ok(tab@, ncolors as int, s as int, step as int, j, jx),
            decreases nb_runs - jy,
        {
            proof {
                lemma_runs(s as int, step as int, jy as int);
            }
            let cell_y = jy * step;
            let off = match s.checked_mul(cell_y) {
                Some(o) => o,
                None => {
                    proof {
                        assert(s * cell_y + 0 * step == s * cell_y);
                        assert(!row_cell_ok(tab@, ncolors as int, s * cell_y, step as int, 0));
                        assert(!shown_cell_ok(tab@, ncolors as int, s as int, step as int, jy as int, 0));
                        assert(jy * step < s);
                        assert(!render_d2_ok(frame_len as int, screen_width as int, screen_height as int, n as int, tab@, ncolors as int));
                    }
                    return false;
                },
            };
            if !row_cells_ok(tab, ncolors, off, s, step) {
                proof {
                    let jx = choose|jx: int| 0 <= jx && jx * step < s && !row_cell_ok(tab@, ncolors as int, off as int, step as int, jx);
                    assert(!shown_cell_ok(tab@, ncolors as int, s as int, step as int, jy as int, jx));
                    assert(jy * step < s);
                    assert(!render_d2_ok(frame_len as int, screen_width as int, screen_height as int, n as int, tab@, ncolors as int));
                }
                return false;
            }
            proof {
                assert forall|j: int, jx: int|
                    0 <= j < jy + 1 && 0 <= jx && jx * step < s implies #[trigger] shown_cell_ok(tab@, ncolors as int, s as int, step as int, j, jx) by {
                    if j == jy {
                        assert(row_cell_ok(tab@, ncolors as int, off as int, step as int, jx));
                    }
                }
            }
            jy = jy + 1;
        }
        proof {
            assert forall|j: int, jx: int|
                0 <= j && j * step < s && 0 <= jx && jx * step < s implies #[trigger] shown_cell_ok(tab@, ncolors as int, s as int, step as int, j, jx) by {
                lemma_runs(s as int, step as int, j);
            }
        }
        true
    } else if d == 1 {
        assert((n as u128) * (screen_height as u128) <= 0xffff_ffffu128 * 0xffff_ffff_ffff_ffffu128) by (nonlinear_arith)
            requires
                n <= 0xffff_ffffu128,
                screen_height <= 0xffff_ffff_ffff_ffffu128,
        ;
        let wide = (screen_width as u128) > (n as u128) * (screen_height as u128);
        let c0 = if wide { screen_width / s } else { screen_width };
        if c0 == 0 {
            return false;
        }
        let cell_size = if c0 / s > 1 { c0 / s } else { 1 };
        let step = s / c0 + 1;
        let canvas_height = cell_size / step;
        assert(canvas_height <= cell_size) by (nonlinear_arith)
            requires
                canvas_height == cell_size / step,
                step >= 1,
                cell_size >= 1,
        ;
        if cell_size > screen_height {
            return false;
        }
        assert(screen_height <= screen_width * screen_height) by (nonlinear_arith)
            requires
                screen_width >= 1,
        ;
        let yo = (screen_height - canvas_height + cell_size) / 2;
        if yo + cell_size > screen_height {
            return false;
        }
        row_cells_ok(tab, ncolors, 0, s, step)
    } else {
        false
    }
}

} // verus!
