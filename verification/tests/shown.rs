//! How amounts, settings and positions are shown.

use minesweeper_core::big_nat::BigNat;
use minesweeper_core::probability::Estimate;
use minesweeper_core::readout::{
    fine_percent_text, fmt_count, fmt_memory, hex_colour_text, percent_text, rgb_colour_text, tint,
};
use minesweeper_core::settings::Settings;
use minesweeper_core::status;

fn n(value: u64) -> BigNat {
    BigNat::from_u64(value)
}

#[test]
fn memory_is_shown_in_the_largest_unit_that_fits() {
    assert_eq!(fmt_memory(0), "0 B");
    assert_eq!(fmt_memory(1023), "1023 B");
    assert_eq!(fmt_memory(1024), "1.0 KB");
    assert_eq!(fmt_memory(1536), "1.5 KB");
    // 1.25 and 1.75 are halfway between two tenths: the even one is taken.
    assert_eq!(fmt_memory(1280), "1.2 KB");
    assert_eq!(fmt_memory(1792), "1.8 KB");
    assert_eq!(fmt_memory(1_048_575), "1024.0 KB");
    assert_eq!(fmt_memory(1_048_576), "1.0 MB");
    assert_eq!(fmt_memory(7_340_032), "7.0 MB");
    for bytes in [5usize, 1500, 99_999, 123_456_789, 1_000_000_000_000] {
        let expected = match bytes {
            b if b < 1_024 => format!("{} B", b),
            b if b < 1_048_576 => format!("{:.1} KB", b as f64 / 1_024.0),
            b => format!("{:.1} MB", b as f64 / 1_048_576.0),
        };
        assert_eq!(fmt_memory(bytes), expected);
    }
}

#[test]
fn counts_are_shortened() {
    assert_eq!(fmt_count(&n(0)), "0");
    assert_eq!(fmt_count(&n(999)), "999");
    assert_eq!(fmt_count(&n(1_000)), "1.0K");
    assert_eq!(fmt_count(&n(12_345)), "12.3K");
    assert_eq!(fmt_count(&n(999_999)), "1000.0K");
    assert_eq!(fmt_count(&n(4_500_000)), "4.5M");
    assert_eq!(fmt_count(&n(7_210_000_000)), "7.2B");
    assert_eq!(fmt_count(&n(1_300_000_000_000)), "1.3T");
    assert_eq!(fmt_count(&n(1_000_000_000_000_000)), "1.00e15");
    assert_eq!(fmt_count(&n(123_456_789_012_345_678)), "1.23e17");
    assert_eq!(fmt_count(&n(9_996_000_000_000_000)), "1.00e16");
    let huge = n(1_000_000_000_000_000_000).times(&n(1_000_000_000_000_000_000)).times_small(25);
    assert_eq!(fmt_count(&huge), "2.50e37");
}

#[test]
fn counts_between_two_tenths_are_rounded_as_floats_are() {
    assert_eq!(fmt_count(&n(1_150)), "1.1K");
    assert_eq!(fmt_count(&n(1_250)), "1.2K");
    assert_eq!(fmt_count(&n(1_350)), "1.4K");
    let thousand = 1_000u64;
    for (power, letter) in [(1, "K"), (2, "M"), (3, "B"), (4, "T")] {
        let unit = thousand.pow(power);
        for i in 20..20_000u64 {
            let v = i * (unit / 20);
            let float = format!("{:.1}{}", v as f64 / unit as f64, letter);
            assert_eq!(fmt_count(&n(v)), float);
        }
    }
}

#[test]
fn shares_are_shown_in_percent() {
    assert_eq!(percent_text(&n(0), &n(7)), "0%");
    assert_eq!(percent_text(&n(1), &n(3)), "33%");
    assert_eq!(percent_text(&n(2), &n(3)), "67%");
    assert_eq!(percent_text(&n(1), &n(8)), "12%");
    assert_eq!(percent_text(&n(3), &n(8)), "38%");
    assert_eq!(percent_text(&n(7), &n(7)), "100%");
    assert_eq!(percent_text(&n(9), &n(7)), "100%");
    assert_eq!(fine_percent_text(&n(1), &n(3)), "33.3%");
    assert_eq!(fine_percent_text(&n(1), &n(1)), "100.0%");
}

#[test]
fn colours_go_from_grey_to_red() {
    assert_eq!(tint(&n(0), &n(5)), (204, 204));
    assert_eq!(tint(&n(5), &n(5)), (255, 0));
    assert_eq!(tint(&n(1), &n(2)), (230, 102));
    for part in 0..=37u64 {
        let p = part as f64 / 37.0;
        let r = (204.0 + 51.0 * p).round() as u8;
        let g = (204.0 * (1.0 - p)).round() as u8;
        assert_eq!(tint(&n(part), &n(37)), (r, g));
    }
    assert_eq!(hex_colour_text((204, 10)), "#cc0a0a");
    assert_eq!(rgb_colour_text((204, 10)), "rgb(204,10,10)");
}

#[test]
fn status_lines_name_what_was_done() {
    assert_eq!(status::sampling_result(3, 20, 512), "MC: 3 valid / 20 sampled  [512 B]");
    assert_eq!(status::search_result(4, 9, 2048), "CS: 4 layouts / 9 steps  [2.0 KB]");
    assert_eq!(
        status::sampling_progress(3, 20, 100, 0),
        "MC: 3 valid  /  20 of 100 sampled  [0 B]"
    );
    assert_eq!(status::sampling_done(3, 20, 0), "✓ MC: 3 valid  /  20 sampled  [0 B]");
    assert_eq!(status::search_progress(0, 5, 0), "CS: searching…  [0 B]");
    assert_eq!(status::search_progress(2, 5, 0), "CS: 2 layouts / 5 steps  [0 B]");
    assert_eq!(status::search_done(2, 5, 0), "✓ CS: 2 layouts / 5 steps  [0 B]");
    assert_eq!(status::network_done(12, 0), "✓ NN: 12 cells  [0 B]");
}

#[test]
fn settings_are_taken_as_near_as_can_be_played() {
    let s = |width, height, mines| Settings { width, height, mines };
    assert_eq!(Settings::new(10, 10, 10, 50), s(10, 10, 10));
    assert_eq!(Settings::new(1, 99, 0, 50), s(3, 50, 1));
    assert_eq!(Settings::new(3, 50, 1, 50), s(3, 50, 1));
    assert_eq!(Settings::new(4, 4, 100, 50), s(4, 4, 15));
    assert_eq!(Settings::new(500, 500, 7, 200), s(200, 200, 7));
    assert_eq!(Settings::from_signed(-1, 5, -3), s(50, 5, 249));
    assert_eq!(Settings::from_signed(8, 9, 12), s(8, 9, 12));
    assert_eq!(Settings::initial().changed(None, Some(20), None), s(10, 20, 10));
    assert_eq!(Settings::initial().changed(Some(2), None, Some(0)), s(3, 10, 1));
}

#[test]
fn an_estimate_can_be_copied() {
    let estimate = Estimate::uniform(3, 2, 4);
    let again = estimate.copy(3, 2);
    assert_eq!(again.total.to_u64(), Some(6));
    for row in &again.mines {
        assert_eq!(row.len(), 3);
        for weight in row {
            assert_eq!(weight.to_u64(), Some(4));
        }
    }
}
