use mirror_listing::size::human_readable_size;

#[test]
fn zero_bytes() {
    assert_eq!(human_readable_size(0), "0 B");
}

#[test]
fn whole_and_fractional_units() {
    assert_eq!(human_readable_size(1024), "1 KB");
    assert_eq!(human_readable_size(1536), "1.5 KB");
    assert_eq!(human_readable_size(1024 * 1024), "1 MB");
    assert_eq!(human_readable_size(512), "512 B");
    assert_eq!(human_readable_size(2 * 1024 * 1024 * 1024), "2 GB");
}

#[test]
fn one_gibibyte() {
    assert_eq!(human_readable_size(1_073_741_824), "1 GB");
}

#[test]
fn two_decimals_are_rounded() {
    // 1100 / 1024 = 1.07421875
    assert_eq!(human_readable_size(1100), "1.07 KB");
    // 1126 / 1024 = 1.099609375
    assert_eq!(human_readable_size(1126), "1.1 KB");
    // 1152 / 1024 = 1.125 exactly: the tie goes to the even digit
    assert_eq!(human_readable_size(1152), "1.12 KB");
    // 1160 / 1024 = 1.1328125
    assert_eq!(human_readable_size(1160), "1.13 KB");
    // just below one megabyte rounds up to 1024 kilobytes
    assert_eq!(human_readable_size(1024 * 1024 - 1), "1024 KB");
}

#[test]
fn each_range_keeps_its_unit() {
    let units = ["B", "KB", "MB", "GB", "TB", "PB", "EB"];
    for k in 0..7u32 {
        let low = 1024u64.pow(k);
        let text = human_readable_size(low);
        assert_eq!(text, format!("1 {}", units[k as usize]));
        if k < 6 {
            let high = 1024u64.pow(k + 1) - 1;
            let text = human_readable_size(high);
            assert!(text.ends_with(&format!(" {}", units[k as usize])), "{}", text);
        }
    }
}

#[test]
fn largest_count_stays_in_exabytes() {
    assert_eq!(human_readable_size(u64::MAX), "16 EB");
    assert_eq!(human_readable_size(3 * 1024u64.pow(6)), "3 EB");
    assert_eq!(human_readable_size(1023), "1023 B");
}
