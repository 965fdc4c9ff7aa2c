use graf::render::header_due;
use graf::render::gutter_text;
use graf::render::render_body_row;
use graf::render::Cell;
use graf::timefmt::timestamp;

fn blank_or_tick(j: u16) -> Cell {
    if j % 16 == 0 {
        Cell { color: 90, glyph: '|' }
    } else {
        Cell { color: 0, glyph: ' ' }
    }
}

#[test]
fn clock_reading_is_utc() {
    assert_eq!(timestamp(1454331845000), "13:04:05");
    assert_eq!(timestamp(0), "00:00:00");
    assert_eq!(timestamp(86399999), "23:59:59");
    assert_eq!(timestamp(86400000), "00:00:00");
}

#[test]
fn clock_reading_before_epoch() {
    // milliseconds truncate toward zero, then the day wraps
    assert_eq!(timestamp(-1500), "23:59:59");
    assert_eq!(timestamp(-86400000), "00:00:00");
}

#[test]
fn stationary_pair_draws_one_bar() {
    // two equal samples on adjacent rows: a | at their column, nothing
    // else in the body beyond the grid ticks
    let series = vec![vec![Some(5u16), Some(5u16)]];
    let hdr: Vec<u8> = Vec::new();
    let row = render_body_row(&series, 1, 20, &hdr);
    assert_eq!(row.len(), 20);
    for j in 0..20u16 {
        if j == 5 {
            assert_eq!(row[j as usize], Cell { color: 31, glyph: '|' });
        } else {
            assert_eq!(row[j as usize], blank_or_tick(j));
        }
    }
}

#[test]
fn crossing_series_first_match_wins() {
    // two series crossing between columns 2 and 8: the first series
    // claims every contested column in its own color
    let series = vec![vec![Some(2u16), Some(8u16)], vec![Some(8u16), Some(2u16)]];
    let hdr: Vec<u8> = Vec::new();
    let row = render_body_row(&series, 1, 20, &hdr);
    for j in 0..20u16 {
        let got = row[j as usize];
        if j == 2 {
            // the first series' previous sample sits here
            assert_eq!(got, Cell { color: 31, glyph: '\'' });
        } else if j > 2 && j < 8 {
            assert_eq!(got, Cell { color: 31, glyph: '-' });
        } else if j == 8 {
            assert_eq!(got, Cell { color: 31, glyph: '.' });
        } else {
            assert_eq!(got, blank_or_tick(j));
        }
    }
}

#[test]
fn second_series_draws_where_first_is_silent() {
    // a gap in the first series hands the column to the second, in the
    // second palette color
    let series = vec![vec![None, None], vec![Some(3u16), Some(3u16)]];
    let hdr: Vec<u8> = Vec::new();
    let row = render_body_row(&series, 1, 10, &hdr);
    assert_eq!(row[3], Cell { color: 32, glyph: '|' });
    assert_eq!(row[0], Cell { color: 90, glyph: '|' });
    assert_eq!(row[1], Cell { color: 0, glyph: ' ' });
}

#[test]
fn missing_sample_draws_nothing() {
    // a pair needs both samples present to draw at all
    let series = vec![vec![Some(4u16), None], vec![None, Some(4u16)]];
    let hdr: Vec<u8> = Vec::new();
    let row = render_body_row(&series, 1, 10, &hdr);
    for j in 0..10u16 {
        assert_eq!(row[j as usize], blank_or_tick(j));
    }
}

#[test]
fn header_bytes_overlay_series_glyphs() {
    // non-space header bytes are drawn dim on top, spaces fall through
    let series = vec![vec![Some(1u16), Some(1u16)]];
    let hdr: Vec<u8> = b" 1.5".to_vec();
    let row = render_body_row(&series, 1, 10, &hdr);
    assert_eq!(row[0], Cell { color: 90, glyph: '|' });
    assert_eq!(row[1], Cell { color: 90, glyph: '1' });
    assert_eq!(row[2], Cell { color: 90, glyph: '.' });
    assert_eq!(row[3], Cell { color: 90, glyph: '5' });
    assert_eq!(row[4], Cell { color: 0, glyph: ' ' });
}

#[test]
fn palette_cycles_after_six_series() {
    let series = vec![
        vec![None, None],
        vec![None, None],
        vec![None, None],
        vec![None, None],
        vec![None, None],
        vec![None, None],
        vec![Some(1u16), Some(1u16)],
    ];
    let hdr: Vec<u8> = Vec::new();
    let row = render_body_row(&series, 1, 4, &hdr);
    // the seventh series wears the first palette color again
    assert_eq!(row[1], Cell { color: 31, glyph: '|' });
}

#[test]
fn gutter_shows_clock_every_fifth_row() {
    assert_eq!(gutter_text(1454331845000, 0, 1), "13:04:05 ");
    assert_eq!(gutter_text(1454331845000, 0, 2), "         ");
    assert_eq!(gutter_text(1454331845000, 3, 3), "13:04:05 ");
    assert_eq!(gutter_text(1454331845000, 4, 1), "         ");
}

#[test]
fn header_cadence_follows_terminal_height() {
    assert!(header_due(0, 1, 24));
    assert!(!header_due(0, 2, 24));
    assert!(header_due(24, 1, 24));
    assert!(header_due(0, 25, 24));
}
