//! The grid renderer: composes quantized series and overlay header bytes
//! into one row of colored glyphs per consecutive sample pair, plus the
//! time-label gutter and the label cadence decisions.
//!
//! A row's body is decided column by column: a non-space header byte is
//! drawn on top in the dim style; otherwise the first series, in index
//! order, whose current and previous columns are both present claims the
//! column with a connector or endpoint glyph in that series' color; a
//! dim grid tick marks every sixteenth column; everything else is blank.

use vstd::prelude::*;

use crate::timefmt::clock_chars;
use crate::timefmt::timestamp;

verus! {

/// One terminal cell: an ANSI color code — 0 for unstyled — and the
/// glyph drawn there.
#[derive(Clone, Copy, PartialEq, Eq, Structural, Debug)]
pub struct Cell {
    pub color: u8,
    pub glyph: char,
}

/// The fixed cyclic palette: series `k` draws in `color_of(k)`, one of
/// six ANSI colors, all distinct from the dim style 90 of header and
/// grid glyphs.
pub open spec fn color_of(k: int) -> u8 {
    let i = k % 6;
    if i == 0 {
        31
    } else if i == 1 {
        32
    } else if i == 2 {
        33
    } else if i == 3 {
        34
    } else if i == 4 {
        35
    } else {
        36
    }
}

/// The glyph one series puts at column `j` of a row, from its previous
/// and current quantized columns: a `-` connector strictly between them,
/// `|` where both sit on the column, `.` for the current sample alone,
/// `'` for the previous alone, and nothing if either sample is missing.
pub open spec fn pair_glyph(xp: Option<u16>, x: Option<u16>, j: int) -> Option<char> {
    match (x, xp) {
        (Some(xc), Some(xpc)) => {
            if (xc < j && j < xpc) || (xpc < j && j < xc) {
                Some('-')
            } else if xc == j && xpc == j {
                Some('|')
            } else if xc == j {
                Some('.')
            } else if xpc == j {
                Some('\'')
            } else {
                None
            }
        },
        _ => None,
    }
}

/// The first series at index `k` or later that claims column `j` of row
/// `i`, with its color — the lowest index wins and later series are not
/// blended.
pub open spec fn first_hit(series: Seq<Seq<Option<u16>>>, k: int, i: int, j: int) -> Option<Cell>
    decreases series.len() - k,
{
    if k < 0 || k >= series.len() {
        None
    } else {
        match pair_glyph(series[k][i - 1], series[k][i], j) {
            Some(g) => Some(Cell { color: color_of(k), glyph: g }),
            None => first_hit(series, k + 1, i, j),
        }
    }
}

/// The cell at column `j` of body row `i`: a non-space header byte is
/// drawn dim on top of everything; otherwise the first matching series
/// draws; otherwise a dim tick on every sixteenth column, else a blank.
pub open spec fn body_cell(series: Seq<Seq<Option<u16>>>, i: int, j: int, hdr: Seq<u8>) -> Cell {
    if j < hdr.len() && hdr[j] != 32 {
        Cell { color: 90, glyph: hdr[j] as char }
    } else {
        match first_hit(series, 0, i, j) {
            Some(c) => c,
            None => {
                if j % 16 == 0 {
                    Cell { color: 90, glyph: '|' }
                } else {
                    Cell { color: 0, glyph: ' ' }
                }
            },
        }
    }
}

/// The quantized matrix as a sequence of sample-column sequences.
pub open spec fn mat_view(series: &Vec<Vec<Option<u16>>>) -> Seq<Seq<Option<u16>>> {
    Seq::new(series@.len(), |k: int| series@[k]@)
}

/// The palette color of one series index.
fn color_of_exec(k: usize) -> (c: u8)
    ensures
        c == color_of(k as int),
{
    match k % 6 {
        0 => 31,
        1 => 32,
        2 => 33,
        3 => 34,
        4 => 35,
        _ => 36,
    }
}

/// The cell at one body column, scanning the series in index order.
#[verifier::loop_isolation(false)]
fn compute_cell(series: &Vec<Vec<Option<u16>>>, i: usize, j: u16, hdr: &Vec<u8>) -> (c: Cell)
    requires
        i >= 1,
        forall|k: int| 0 <= k < series@.len() ==> i < (#[trigger] series@[k])@.len(),
    ensures
        c == body_cell(mat_view(series), i as int, j as int, hdr@),
{
    let ghost mv = mat_view(series);
    if (j as usize) < hdr.len() {
        let hb = hdr[j as usize];
        if hb != 32 {
            return Cell { color: 90, glyph: hb as char };
        }
    }
    let mut k: usize = 0;
    while k < series.len()
        invariant
            0 <= k <= series@.len(),
            i >= 1,
            mv == mat_view(series),
            forall|kk: int| 0 <= kk < series@.len() ==> i < (#[trigger] series@[kk])@.len(),
            first_hit(mv, 0, i as int, j as int) == first_hit(mv, k as int, i as int, j as int),
        decreases series@.len() - k,
    {
        let vs = &series[k];
        let xp = vs[i - 1];
        let x = vs[i];
        if let (Some(xc), Some(xpc)) = (x, xp) {
            let hit: bool;
            let glyph: char;
            if (xc < j && j < xpc) || (xpc < j && j < xc) {
                hit = true;
                glyph = '-';
            } else if xc == j && xpc == j {
                hit = true;
                glyph = '|';
            } else if xc == j {
                hit = true;
                glyph = '.';
            } else if xpc == j {
                hit = true;
                glyph = '\'';
            } else {
                hit = false;
                glyph = ' ';
            }
            if hit {
                proof {
                    assert(pair_glyph(mv[k as int][i - 1], mv[k as int][i as int], j as int)
                        == Some(glyph));
                    assert(first_hit(mv, k as int, i as int, j as int) == Some(
                        Cell { color: color_of(k as int), glyph },
                    ));
                }
                let color = color_of_exec(k);
                return Cell { color, glyph };
            }
        }
        proof {
            assert(pair_glyph(mv[k as int][i - 1], mv[k as int][i as int], j as int) is None);
        }
        k = k + 1;
    }
    if j % 16 == 0 {
        Cell { color: 90, glyph: '|' }
    } else {
        Cell { color: 0, glyph: ' ' }
    }
}

/// One body row of the plot: `width` cells for row `i`, drawn from each
/// series' columns at `i` and `i - 1` under the header-byte overlay.
pub fn render_body_row(series: &Vec<Vec<Option<u16>>>, i: usize, width: u16, hdr: &Vec<u8>) -> (row:
    Vec<Cell>)
    requires
        i >= 1,
        forall|k: int| 0 <= k < series@.len() ==> i < (#[trigger] series@[k])@.len(),
    ensures
        row@.len() == width as int,
        forall|j: int|
            0 <= j < width as int ==> row@[j] == body_cell(
                mat_view(series),
                i as int,
                j,
                hdr@,
            ),
{
    let mut row: Vec<Cell> = Vec::new();
    let mut j: u16 = 0;
    while j < width
        invariant
            j <= width,
            i >= 1,
            forall|k: int| 0 <= k < series@.len() ==> i < (#[trigger] series@[k])@.len(),
            row@.len() == j as int,
            forall|jj: int|
                0 <= jj < j as int ==> row@[jj] == body_cell(
                    mat_view(series),
                    i as int,
                    jj,
                    hdr@,
                ),
        decreases width - j,
    {
        let cell = compute_cell(series, i, j, hdr);
        row.push(cell);
        j = j + 1;
    }
    row
}

/// Whether the axis header overlays output row `i`: once every screen
/// of `rows` lines, continuing across fetch boundaries through the
/// cursor's row offset.
pub fn header_due(row_offset: usize, i: usize, rows: u16) -> (r: bool)
    requires
        rows >= 1,
        row_offset + i <= usize::MAX,
    ensures
        r == ((row_offset + i) % (rows as int) == 1),
{
    (row_offset + i) % (rows as usize) == 1
}

/// The nine gutter characters of output row `i`: the `HH:MM:SS` clock
/// reading of the row's instant and a space on every fifth row, blanks
/// otherwise.
pub open spec fn gutter_chars(time_ms: int, pos: int) -> Seq<char> {
    if pos % 5 == 1 {
        clock_chars(time_ms) + seq![' ']
    } else {
        Seq::new(9, |x: int| ' ')
    }
}

/// Renders the time-label gutter of output row `i`, nine characters.
pub fn gutter_text(time_ms: i64, row_offset: usize, i: usize) -> (r: String)
    requires
        row_offset + i <= usize::MAX,
    ensures
        r@ == gutter_chars(time_ms as int, row_offset + i as int),
        r@.len() == 9,
{
    if (row_offset + i) % 5 == 1 {
        let mut s = timestamp(time_ms);
        s.append(" ");
        proof {
            reveal_strlit(" ");
            assert(s@ =~= clock_chars(time_ms as int) + seq![' ']);
        }
        s
    } else {
        let s = String::from_str("         ");
        proof {
            reveal_strlit("         ");
            assert(s@ =~= Seq::new(9, |x: int| ' '));
        }
        s
    }
}

/// Law: the lowest-indexed series that claims a column draws it. Where
/// series `k` puts a glyph at column `j` of row `i` and no earlier
/// series puts one there, the scan over all series yields exactly that
/// glyph in that series' palette color — later series never blend in.
pub proof fn lemma_first_match_wins(
    series: Seq<Seq<Option<u16>>>,
    i: int,
    j: int,
    k: int,
    g: char,
)
    requires
        0 <= k < series.len(),
        pair_glyph(series[k][i - 1], series[k][i], j) == Some(g),
        forall|kk: int|
            0 <= kk < k ==> pair_glyph(series[kk][i - 1], #[trigger] series[kk][i], j) is None,
    ensures
        first_hit(series, 0, i, j) == Some(Cell { color: color_of(k), glyph: g }),
{
    lemma_first_hit_from(series, 0, i, j, k, g);
}

/// The scan from any index at or before a first match ends on that
/// match.
proof fn lemma_first_hit_from(series: Seq<Seq<Option<u16>>>, k0: int, i: int, j: int, k: int, g: char)
    requires
        0 <= k0 <= k < series.len(),
        pair_glyph(series[k][i - 1], series[k][i], j) == Some(g),
        forall|kk: int|
            k0 <= kk < k ==> pair_glyph(series[kk][i - 1], #[trigger] series[kk][i], j) is None,
    ensures
        first_hit(series, k0, i, j) == Some(Cell { color: color_of(k), glyph: g }),
    decreases k - k0,
{
    if k0 < k {
        lemma_first_hit_from(series, k0 + 1, i, j, k, g);
    }
}

} // verus!
