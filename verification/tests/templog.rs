use templog::averager::average;
use templog::clock::get_time;
use templog::error::LogError;
use templog::fixed::Fixed;
use templog::parser::{parse_fixed, parse_log, parse_temperature};
use templog::sorting::sort;
use templog::writer::{format_line, render_fixed, LogBuffer, Reading};

fn fx(millis: i128) -> Fixed {
    Fixed { millis }
}

fn pair(x: i128, y: i128) -> (Fixed, Fixed) {
    (fx(x), fx(y))
}

// Temperature reader: "23456\n" denotes exactly 23.456 degrees.
#[test]
fn temperature_scenario() {
    let r = parse_temperature(b"23456\n").unwrap();
    assert_eq!(r, fx(23456));
    assert_eq!(render_fixed(&r), b"23.456".to_vec());
}

#[test]
fn temperature_exact_scaling() {
    assert_eq!(parse_temperature(b"0").unwrap(), fx(0));
    assert_eq!(parse_temperature(b"-40000\n").unwrap(), fx(-40000));
    assert_eq!(parse_temperature(b"+5\n").unwrap(), fx(5));
    assert_eq!(parse_temperature(b"2147483647").unwrap(), fx(2147483647));
    assert_eq!(parse_temperature(b"-2147483648").unwrap(), fx(-2147483648));
}

#[test]
fn temperature_rejects_bad_content() {
    assert_eq!(parse_temperature(b""), Err(LogError::Parse));
    assert_eq!(parse_temperature(b"\n"), Err(LogError::Parse));
    assert_eq!(parse_temperature(b"abc\n"), Err(LogError::Parse));
    assert_eq!(parse_temperature(b"12.5\n"), Err(LogError::Parse));
    assert_eq!(parse_temperature(b"2147483648"), Err(LogError::Parse));
    assert_eq!(parse_temperature(b"-2147483649"), Err(LogError::Parse));
    assert_eq!(parse_temperature(b"12\n\n"), Err(LogError::Parse));
}

// Rendering matches how f64 display prints these values.
#[test]
fn render_fixed_values() {
    assert_eq!(render_fixed(&fx(20000)), b"20".to_vec());
    assert_eq!(render_fixed(&fx(20500)), b"20.5".to_vec());
    assert_eq!(render_fixed(&fx(-1500)), b"-1.5".to_vec());
    assert_eq!(render_fixed(&fx(10)), b"0.01".to_vec());
    assert_eq!(render_fixed(&fx(1)), b"0.001".to_vec());
    assert_eq!(render_fixed(&fx(0)), b"0".to_vec());
}

#[test]
fn format_line_bytes() {
    let r = Reading::new(1000, fx(23456)).unwrap();
    assert_eq!(format_line(&r), b"1000,23.456\n".to_vec());
    let r = Reading::new(0, fx(-500)).unwrap();
    assert_eq!(format_line(&r), b"0,-0.5\n".to_vec());
}

#[test]
fn parse_fixed_fields() {
    assert_eq!(parse_fixed(b"20.0"), Some(fx(20000)));
    assert_eq!(parse_fixed(b"20"), Some(fx(20000)));
    assert_eq!(parse_fixed(b"-3.25"), Some(fx(-3250)));
    assert_eq!(parse_fixed(b"+0.5"), Some(fx(500)));
    assert_eq!(parse_fixed(b"007"), Some(fx(7000)));
    assert_eq!(parse_fixed(b""), None);
    assert_eq!(parse_fixed(b"1.2345"), None);
    assert_eq!(parse_fixed(b".5"), None);
    assert_eq!(parse_fixed(b"1e5"), None);
}

// Round trip: writing readings and parsing them back yields the same
// sequence of pairs, values exact.
#[test]
fn round_trip_three_readings() {
    let readings = vec![
        Reading::new(1000, fx(20000)).unwrap(),
        Reading::new(2000, fx(-1500)).unwrap(),
        Reading::new(3000, fx(24001)).unwrap(),
    ];
    let mut bytes: Vec<u8> = Vec::new();
    for r in &readings {
        bytes.extend(format_line(r));
    }
    let parsed = parse_log(&bytes).unwrap();
    assert_eq!(parsed.len(), 3);
    for (i, r) in readings.iter().enumerate() {
        assert_eq!(parsed[i].0.millis, r.timestamp_ms as i128 * 1000);
        assert_eq!(parsed[i].1, r.value);
    }
}

// A log written by the writer never raises a format error, whatever the
// readings were.
#[test]
fn writer_output_always_parses() {
    let mut bytes: Vec<u8> = Vec::new();
    let values: [i128; 5] = [0, 1, -1, 999, -123456];
    for (i, v) in values.iter().enumerate() {
        let r = Reading::new(i as u128, fx(*v)).unwrap();
        bytes.extend(format_line(&r));
    }
    assert!(parse_log(&bytes).is_ok());
}

#[test]
fn parse_log_empty_and_blank_lines() {
    assert_eq!(parse_log(b"").unwrap(), vec![]);
    assert_eq!(parse_log(b"\n\n").unwrap(), vec![]);
    let v = parse_log(b"\n1,2\n\n3,4\n").unwrap();
    assert_eq!(v, vec![pair(1000, 2000), pair(3000, 4000)]);
}

// A line of three comma-separated fields is a fatal format error.
#[test]
fn parse_log_three_fields_is_format_error() {
    assert_eq!(parse_log(b"1.0,2.0,3.0\n"), Err(LogError::Format));
}

#[test]
fn parse_log_error_kinds() {
    assert_eq!(parse_log(b"1.0\n"), Err(LogError::Format));
    assert_eq!(parse_log(b"1.0,abc\n"), Err(LogError::Parse));
    assert_eq!(parse_log(b"abc,2.0\n"), Err(LogError::Parse));
    // The first offending line decides; fields are checked left to right,
    // and a third field is a format error before it is ever read.
    assert_eq!(parse_log(b"1,2\nbad,2.0,x\n"), Err(LogError::Parse));
    assert_eq!(parse_log(b"1,2\n1.0,2.0,x\n"), Err(LogError::Format));
    assert_eq!(parse_log(b"1,2\n1.0,2.0,3.0\n"), Err(LogError::Format));
}

// Sort is total on fixed-point pairs and orders by timestamp, then value.
#[test]
fn sort_orders_pairs() {
    let mut v = vec![pair(3, 1), pair(1, 2), pair(3, 0), pair(1, 1)];
    sort(&mut v);
    assert_eq!(v, vec![pair(1, 1), pair(1, 2), pair(3, 0), pair(3, 1)]);
}

#[test]
fn sort_keeps_duplicates() {
    let mut v = vec![pair(2, 2), pair(1, 1), pair(2, 2), pair(1, 1)];
    sort(&mut v);
    assert_eq!(v, vec![pair(1, 1), pair(1, 1), pair(2, 2), pair(2, 2)]);
    let mut empty: Vec<(Fixed, Fixed)> = vec![];
    sort(&mut empty);
    assert_eq!(empty, vec![]);
}

// Averaging scenario: window 1 returns the input with x made relative.
#[test]
fn average_window_one() {
    let log = parse_log(b"1000,20.0\n2000,22.0\n3000,24.0\n").unwrap();
    let avg = average(&log, 1).unwrap();
    assert_eq!(
        avg,
        vec![pair(0, 20000), pair(1000000, 22000), pair(2000000, 24000)]
    );
}

// Averaging scenario: window 3 produces the single mean point.
#[test]
fn average_window_three() {
    let log = parse_log(b"1000,20.0\n2000,22.0\n3000,24.0\n").unwrap();
    let avg = average(&log, 3).unwrap();
    assert_eq!(avg, vec![pair(1000000, 22000)]);
}

#[test]
fn average_length_and_remainder() {
    let log = vec![pair(0, 0), pair(1, 1), pair(2, 2), pair(3, 3), pair(4, 4)];
    let avg = average(&log, 2).unwrap();
    assert_eq!(avg.len(), 2);
    // Window of two: means of x offsets (0,1) and (2,3), y values likewise.
    assert_eq!(avg, vec![pair(0, 0), pair(2, 2)]);
    let none = average(&log, 6).unwrap();
    assert_eq!(none, vec![]);
}

#[test]
fn average_domain_errors() {
    let empty: Vec<(Fixed, Fixed)> = vec![];
    assert_eq!(average(&empty, 1), Err(LogError::Domain));
    let log = vec![pair(0, 0)];
    assert_eq!(average(&log, 0), Err(LogError::Domain));
}

// Buffered writer scenario: with a 10-byte threshold, two readings whose
// rows together pass the threshold cause exactly one flush, holding both
// rows.
#[test]
fn buffer_flushes_once_at_threshold() {
    let mut buf = LogBuffer::new(10);
    let r1 = Reading::new(12, fx(3500)).unwrap();
    let r2 = Reading::new(13, fx(4500)).unwrap();
    assert_eq!(buf.push(&r1), None);
    let flushed = buf.push(&r2).unwrap();
    assert_eq!(flushed, b"12,3.5\n13,4.5\n".to_vec());
    assert!(buf.buf.is_empty());
    // A third reading starts filling the empty buffer again.
    let r3 = Reading::new(14, fx(5500)).unwrap();
    assert_eq!(buf.push(&r3), None);
    assert_eq!(buf.buf, b"14,5.5\n".to_vec());
}

#[test]
fn buffer_zero_threshold_flushes_every_row() {
    let mut buf = LogBuffer::new(0);
    let r = Reading::new(1, fx(1000)).unwrap();
    assert_eq!(buf.push(&r).unwrap(), b"1,1\n".to_vec());
    assert!(buf.buf.is_empty());
}

#[test]
fn fixed_from_millis_checks_bounds() {
    assert_eq!(Fixed::from_millis(23456), Some(fx(23456)));
    assert_eq!(Fixed::from_millis(1_000_000_000_000_000_000), Some(fx(1_000_000_000_000_000_000)));
    assert_eq!(Fixed::from_millis(1_000_000_000_000_000_001), None);
    assert_eq!(Fixed::from_millis(-1_000_000_000_000_000_001), None);
}

#[test]
fn reading_rejects_oversized_timestamp() {
    assert!(Reading::new(1_000_000_000_000_000, fx(0)).is_some());
    assert!(Reading::new(1_000_000_000_000_001, fx(0)).is_none());
}

#[test]
fn clock_reads() {
    if let Some(t) = get_time() {
        // The sandbox clock stands well after the epoch.
        assert!(t > 0);
    }
}
