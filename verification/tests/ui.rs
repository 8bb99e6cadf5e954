use dustpan::ui::{
    display_width, fmt_count, fmt_size, is_yes, pad_to_width, truncate_width, Style,
};

#[test]
fn size_formatting() {
    assert_eq!(fmt_size(0), "0 B");
    assert_eq!(fmt_size(512), "512 B");
    assert_eq!(fmt_size(2048), "2.0 KB");
    assert_eq!(fmt_size(5 * 1024 * 1024), "5.0 MB");
    assert_eq!(fmt_size(3 * 1024 * 1024 * 1024), "3.0 GB");
}

#[test]
fn count_formatting() {
    assert_eq!(fmt_count(0), "0");
    assert_eq!(fmt_count(999), "999");
    assert_eq!(fmt_count(1000), "1,000");
    assert_eq!(fmt_count(1234567), "1,234,567");
}

#[test]
fn cjk_display_width() {
    assert_eq!(display_width("abc"), 3);
    assert_eq!(display_width("上传到百度网盘"), 14);
    assert_eq!(display_width("7-Zip 中文版"), 12);
}

#[test]
fn width_aware_truncate_and_pad() {
    assert_eq!(truncate_width("short", 10), "short");
    // 6 cells of CJK + ellipsis fits in 8
    assert_eq!(truncate_width("上传到百度网盘", 8), "上传到…");
    assert_eq!(display_width(&truncate_width("上传到百度网盘", 8)), 7);
    assert_eq!(pad_to_width("中文", 6), "中文  ");
    assert_eq!(display_width(&pad_to_width("中文", 6)), 6);
    assert_eq!(pad_to_width("toolong", 3), "toolong");
}

/// The size as floating point arithmetic writes it.
fn by_division(bytes: u64) -> String {
    let units = ["B", "KB", "MB", "GB", "TB"];
    let mut value = bytes as f64;
    let mut unit = 0;
    while value >= 1024.0 && unit + 1 < units.len() {
        value /= 1024.0;
        unit += 1;
    }
    if unit == 0 {
        format!("{} B", bytes)
    } else {
        format!("{:.1} {}", value, units[unit])
    }
}

#[test]
fn sizes_agree_with_division() {
    let mut samples: Vec<u64> = (0..5000).collect();
    for shift in 10..64 {
        let base = 1u64 << shift;
        for step in 0..200u64 {
            samples.push(base.wrapping_add(step * (base / 20)));
            samples.push(base.wrapping_sub(step));
            samples.push(base.wrapping_add(step));
        }
    }
    samples.push(u64::MAX);
    let mut x: u64 = 88172645463325252;
    for _ in 0..20000 {
        x ^= x << 13;
        x ^= x >> 7;
        x ^= x << 17;
        samples.push(x);
        samples.push(x >> (x % 50));
    }
    for bytes in samples {
        assert_eq!(fmt_size(bytes), by_division(bytes), "{} bytes", bytes);
    }
}

#[test]
fn halves_between_tenths_round_to_even() {
    assert_eq!(fmt_size(1024 + 256), "1.2 KB");
    assert_eq!(fmt_size(1024 + 768), "1.8 KB");
    assert_eq!(fmt_size(1024 * 1024 - 1), "1024.0 KB");
}

#[test]
fn counts_without_commas_are_the_digits() {
    for n in [0u64, 7, 12, 123, 1234, 12345, 123456, 9999999, u64::MAX] {
        assert_eq!(fmt_count(n).replace(',', ""), n.to_string());
    }
    assert_eq!(fmt_count(u64::MAX), "18,446,744,073,709,551,615");
}

#[test]
fn truncation_fits_and_keeps_what_it_can() {
    assert_eq!(truncate_width("", 0), "");
    assert_eq!(truncate_width("a", 0), "");
    assert_eq!(truncate_width("ab", 1), "…");
    assert_eq!(truncate_width("中文字", 6), "中文字");
    assert_eq!(truncate_width("中文字", 5), "中文…");
    assert_eq!(truncate_width("中文字", 4), "中…");
    for width in 0..20 {
        assert!(display_width(&truncate_width("a上b传c到d百e度", width)) <= width);
    }
}

#[test]
fn padded_columns_line_up() {
    for s in ["", "a", "中", "a中b", "abcdefgh", "上传到百度网盘"] {
        let cell = pad_to_width(&truncate_width(s, 8), 8);
        assert_eq!(display_width(&cell), 8);
    }
}

#[test]
fn only_yes_is_yes() {
    assert!(is_yes("y"));
    assert!(is_yes("  YES \r\n"));
    assert!(!is_yes(""));
    assert!(!is_yes("yep"));
    assert!(!is_yes("n"));
    assert!(!is_yes("y e s"));
}

#[test]
fn styles_paint_only_when_on() {
    let on = Style::auto(false, true, true);
    assert!(on.on);
    assert_eq!(on.bold("x"), "\u{1b}[1mx\u{1b}[0m");
    assert_eq!(on.dim("x"), "\u{1b}[2mx\u{1b}[0m");
    assert_eq!(on.cyan("x"), "\u{1b}[36mx\u{1b}[0m");
    assert_eq!(on.green("x"), "\u{1b}[32mx\u{1b}[0m");
    assert_eq!(on.yellow("x"), "\u{1b}[33mx\u{1b}[0m");
    assert_eq!(on.invert("x"), "\u{1b}[7mx\u{1b}[0m");
    for off in [
        Style::auto(true, true, true),
        Style::auto(false, false, true),
        Style::auto(false, true, false),
    ] {
        assert!(!off.on);
        assert_eq!(off.bold("x"), "x");
        assert_eq!(off.invert("x"), "x");
    }
}
