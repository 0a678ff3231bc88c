use sniflow::display::{int_width, next_action, scan_input, target_width, Action};
use sniflow::summary::Row;
use sniflow::util::{decimal_width, rounded_tenths, Filesize};

/// The rendering that goes through floating point: the model against which
/// the integer rendering is held.
fn float_model(n: usize, width: usize) -> String {
    let units = ['K', 'M', 'G', 'T'];
    let mut left = n as f64;
    let mut unit: i32 = -1;
    if n >= 1100 {
        left /= 1024.0;
        unit = 0;
        while left > 1100.0 && unit < 3 {
            left /= 1024.0;
            unit += 1;
        }
    }
    if unit == -1 {
        format!("{:w$} B", n, w = width.saturating_sub(2))
    } else {
        format!("{:w$.1} {}B", left, units[unit as usize], w = width.saturating_sub(3))
    }
}

#[test]
fn zero_bytes() {
    assert_eq!(Filesize(0).to_text(9), "      0 B");
}

#[test]
fn one_and_a_half_kibibytes() {
    assert_eq!(Filesize(1536).to_text(9), "   1.5 KB");
}

#[test]
fn below_the_limit_is_bytes() {
    assert_eq!(Filesize(1099).to_text(9), "   1099 B");
    assert_eq!(Filesize(1099).to_text(0), "1099 B");
    assert_eq!(Filesize(1024).to_text(9), "   1024 B");
}

#[test]
fn the_limit_is_the_first_scaled_value() {
    assert_eq!(Filesize(1100).to_text(9), "   1.1 KB");
    assert_eq!(Filesize(1100).to_text(0), "1.1 KB");
    assert_eq!(Filesize(1101).to_text(9), "   1.1 KB");
}

#[test]
fn each_unit() {
    assert_eq!(Filesize(5 * 1024).to_text(9), "   5.0 KB");
    assert_eq!(Filesize(5 * 1024 * 1024).to_text(9), "   5.0 MB");
    assert_eq!(Filesize(5 * 1024 * 1024 * 1024).to_text(9), "   5.0 GB");
    assert_eq!(Filesize(5 * 1024 * 1024 * 1024 * 1024).to_text(9), "   5.0 TB");
}

#[test]
fn unit_limits() {
    assert_eq!(Filesize(1100 * 1024).to_text(9), "1100.0 KB");
    assert_eq!(Filesize(1100 * 1024 + 1).to_text(9), "   1.1 MB");
    assert_eq!(Filesize(1100 * 1024 * 1024).to_text(9), "1100.0 MB");
    assert_eq!(Filesize(1100 * 1024 * 1024 + 1).to_text(9), "   1.1 GB");
    assert_eq!(Filesize(1100 * 1024 * 1024 * 1024).to_text(9), "1100.0 GB");
    assert_eq!(Filesize(1100 * 1024 * 1024 * 1024 + 1).to_text(9), "   1.1 TB");
}

#[test]
fn terabytes_are_the_last_unit() {
    assert_eq!(Filesize(1 << 60).to_text(9), "1048576.0 TB");
    assert_eq!(Filesize(5000 << 40).to_text(12), "   5000.0 TB");
}

#[test]
fn ties_go_to_the_even_tenth() {
    // 1280 / 1024 = 1.25, 1792 / 1024 = 1.75
    assert_eq!(Filesize(1280).to_text(9), "   1.2 KB");
    assert_eq!(Filesize(1792).to_text(9), "   1.8 KB");
    assert_eq!(rounded_tenths(1280, 1024), 12);
    assert_eq!(rounded_tenths(1792, 1024), 18);
    assert_eq!(rounded_tenths(1536, 1024), 15);
    assert_eq!(rounded_tenths(1587, 1024), 15);
    assert_eq!(rounded_tenths(1588, 1024), 16);
}

#[test]
fn width_is_kept() {
    for width in [3usize, 9, 12, 20] {
        for n in [0usize, 7, 1100, 1101, 1536, 999_999, 123_456_789] {
            let text = Filesize(n).to_text(width);
            assert!(text.chars().count() >= width);
            if width >= 9 {
                assert_eq!(text.chars().count(), width, "{} in {}", n, width);
            }
        }
    }
}

#[test]
fn narrow_width_gives_the_bare_text() {
    assert_eq!(Filesize(0).to_text(0), "0 B");
    assert_eq!(Filesize(42).to_text(1), "42 B");
    assert_eq!(Filesize(42).to_text(2), "42 B");
    assert_eq!(Filesize(2048).to_text(0), "2.0 KB");
    assert_eq!(Filesize(2048).to_text(3), "2.0 KB");
    assert_eq!(Filesize(123456).to_text(4), "120.6 KB");
}

#[test]
fn agrees_with_floating_point_rendering() {
    let mut n: usize = 0;
    while n < 3_000_000 {
        assert_eq!(Filesize(n).to_text(9), float_model(n, 9), "{}", n);
        n += 37;
    }
    let mut n: usize = 1;
    for _ in 0..52 {
        for d in [0usize, 1, 2, 3, 51, 52, 53, 511, 512, 513] {
            let m = n + d;
            assert_eq!(Filesize(m).to_text(9), float_model(m, 9), "{}", m);
            assert_eq!(Filesize(m).to_text(14), float_model(m, 14), "{}", m);
        }
        n *= 2;
    }
}

#[test]
fn digits_are_counted() {
    assert_eq!(int_width(0), 1);
    assert_eq!(int_width(9), 1);
    assert_eq!(int_width(10), 2);
    assert_eq!(int_width(99), 2);
    assert_eq!(int_width(100), 3);
    assert_eq!(int_width(12345), 5);
    assert_eq!(decimal_width(u128::MAX), 39);
    assert_eq!(int_width(usize::MAX), usize::MAX.to_string().len());
}

#[test]
fn title_columns() {
    assert_eq!(target_width(80), 32);
    assert_eq!(target_width(48), 0);
    assert_eq!(target_width(10), 0);
    assert_eq!(target_width(49), 1);
}

fn row(hostname: &str, count: usize, sent: usize, received: usize) -> Row {
    Row {
        hostname: hostname.to_string(),
        count,
        sent,
        received,
        total_sent: sent * 10,
        total_received: received * 10,
    }
}

#[test]
fn single_flow_title_is_the_hostname() {
    assert_eq!(row("example.com", 1, 0, 0).title(32), "example.com");
    assert_eq!(row("example.com", 1, 0, 0).title(11), "example.com");
}

#[test]
fn single_flow_title_is_cut() {
    assert_eq!(row("example.com", 1, 0, 0).title(7), "example");
    assert_eq!(row("example.com", 1, 0, 0).title(0), "");
}

#[test]
fn several_flows_title_has_the_count() {
    assert_eq!(row("example.com", 2, 0, 0).title(32), "example.com x2");
    assert_eq!(row("example.com", 12, 0, 0).title(32), "example.com x12");
}

#[test]
fn several_flows_title_leaves_room_for_the_count() {
    // 10 columns, of which " x2" takes three
    assert_eq!(row("example.com", 2, 0, 0).title(10), "example x2");
    // " x12" takes four
    assert_eq!(row("example.com", 12, 0, 0).title(10), "exampl x12");
    assert_eq!(row("example.com", 2, 0, 0).title(3), " x2");
    assert_eq!(row("example.com", 2, 0, 0).title(1), " x2");
}

#[test]
fn title_is_cut_by_characters() {
    assert_eq!(row("b\u{fc}cher.example", 1, 0, 0).title(3), "b\u{fc}c");
}

#[test]
fn line_of_a_row() {
    let line = row("example.com", 1, 200, 5000).render(14);
    assert_eq!(
        line,
        "example.com        200 B/s\u{2191}    4.9 KB/s\u{2193}    2.0 KB\u{2191}   48.8 KB\u{2193}"
    );
    let line = row("example.com", 3, 0, 1536).render(12);
    assert_eq!(
        line,
        "example.c x3       0 B/s\u{2191}    1.5 KB/s\u{2193}       0 B\u{2191}   15.0 KB\u{2193}"
    );
}

#[test]
fn line_fills_the_terminal() {
    for cols in [60usize, 80, 132] {
        let width = target_width(cols);
        let line = row("mirror.example.org", 2, 123456, 7890123).render(width);
        assert_eq!(line.chars().count(), cols);
    }
}

#[test]
fn quit_and_redraw_requests() {
    assert_eq!(scan_input(&[]), (false, false));
    assert_eq!(scan_input(b"abc"), (false, false));
    assert_eq!(scan_input(&[3]), (true, false));
    assert_eq!(scan_input(&[12]), (false, true));
    assert_eq!(scan_input(&[b'a', 12, b'b', 3]), (true, true));
    assert_eq!(scan_input(&[12, 12]), (false, true));
}

#[test]
fn quitting_comes_first() {
    assert_eq!(next_action(&[], false), Action::Wait);
    assert_eq!(next_action(b"q", false), Action::Wait);
    assert_eq!(next_action(&[], true), Action::Redraw);
    assert_eq!(next_action(&[12], false), Action::Redraw);
    assert_eq!(next_action(&[12], true), Action::Redraw);
    assert_eq!(next_action(&[3], false), Action::Quit);
    assert_eq!(next_action(&[12, 3], true), Action::Quit);
}
