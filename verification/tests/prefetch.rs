use lib::prefetch::{
    is_launch_shell, list_path, list_text_of, parse_list, ranges_from, recorded_by, shell_line, start_time, Range, HEADER,
    MAX_RANGES,
};

fn parsed(text: &str) -> Vec<(String, u64, u64)> {
    parse_list(text).into_iter().map(|r| (r.path, r.offset, r.length)).collect()
}

#[test]
fn prefetch_only_present_file_pages_are_kept_in_first_mapped_order_and_merged() {
    let maps = "1000-4000 r--p 00000000 00:1f 1 /usr/lib/libQt6Qml.so.6\n\
                4000-6000 r-xp 00003000 00:1f 1 /usr/lib/libQt6Qml.so.6\n\
                6000-7000 rw-p 00000000 00:00 0 [heap]\n\
                7000-8000 r--p 00000000 00:1f 2 /tmp/gone.so (deleted)\n\
                8000-a000 r--p 00002000 00:1f 3                /usr/share/fonts/a b.ttf\n";
    let present = |start: u64, count: u64| -> Vec<bool> {
        match start {
            0x1000 => vec![true, true, false],
            0x4000 => vec![true, true],
            0x8000 => vec![false, true],
            _ => vec![true; count as usize],
        }
    };
    let ranges = ranges_from(maps, 0x1000, present);
    let want = vec![
        Range { path: "/usr/lib/libQt6Qml.so.6".into(), offset: 0, length: 0x2000 },
        Range { path: "/usr/lib/libQt6Qml.so.6".into(), offset: 0x3000, length: 0x2000 },
        Range { path: "/usr/share/fonts/a b.ttf".into(), offset: 0x3000, length: 0x1000 },
    ];
    assert_eq!(ranges, want);
}

#[test]
fn prefetch_a_list_needs_its_header_skips_bad_lines_and_is_capped() {
    assert!(parse_list("0 4096 /usr/lib/libc.so.6\n").is_empty());
    let text = format!("{HEADER}\n0 4096 /usr/lib/libc.so.6\nx 1 /a\n0 0 /b\n0 4096 relative\n8192 4096 /a b\n");
    assert_eq!(parsed(&text), vec![("/usr/lib/libc.so.6".to_string(), 0, 4096), ("/a b".to_string(), 8192, 4096)]);
    let mut long = String::from(HEADER);
    for i in 0..(MAX_RANGES + 10) {
        long.push_str(&format!("\n0 4096 /usr/lib/lib{i}.so"));
    }
    assert_eq!(parse_list(&long).len(), MAX_RANGES);
}

#[test]
fn prefetch_tests_only_present_file_pages_are_kept_in_first_mapped_order_and_merged() {
    // The font is mapped first and sorts last, so a path-sorted list would put the library ahead of it.
    let maps = "1000-3000 r--p 00002000 00:1f 3                /usr/share/fonts/a b.ttf\n\
                3000-6000 r--p 00000000 00:1f 1 /usr/lib/libQt6Qml.so.6\n\
                6000-7000 rw-p 00000000 00:00 0 [heap]\n\
                7000-8000 r--p 00000000 00:1f 2 /tmp/gone.so (deleted)\n\
                8000-a000 r-xp 00003000 00:1f 1 /usr/lib/libQt6Qml.so.6\n";
    let present = |start: u64, count: u64| -> Vec<bool> {
        match start {
            0x1000 => vec![false, true],
            0x3000 => vec![true, true, false],
            0x8000 => vec![true, true],
            _ => vec![true; count as usize],
        }
    };
    let ranges = ranges_from(maps, 0x1000, present);
    let want = vec![
        Range { path: "/usr/share/fonts/a b.ttf".into(), offset: 0x3000, length: 0x1000 },
        Range { path: "/usr/lib/libQt6Qml.so.6".into(), offset: 0, length: 0x2000 },
        Range { path: "/usr/lib/libQt6Qml.so.6".into(), offset: 0x3000, length: 0x2000 },
    ];
    assert_eq!(ranges, want);
}

#[test]
fn prefetch_tests_a_list_needs_its_header_skips_bad_lines_and_is_capped() {
    assert!(parse_list("0 4096 /usr/lib/libc.so.6\n").is_empty());
    let text = format!("{HEADER}\n0 4096 /usr/lib/libc.so.6\nx 1 /a\n0 0 /b\n0 4096 relative\n8192 4096 /a b\n");
    assert_eq!(parsed(&text), vec![("/usr/lib/libc.so.6".to_string(), 0, 4096), ("/a b".to_string(), 8192, 4096)]);
    let mut long = String::from(HEADER);
    for i in 0..(MAX_RANGES + 10) {
        long.push_str(&format!("\n0 4096 /usr/lib/lib{i}.so"));
    }
    assert_eq!(parse_list(&long).len(), MAX_RANGES);
}

#[test]
fn only_the_shell_the_launcher_named_records() {
    assert!(is_launch_shell(4242, Some("4242")));
    assert!(!is_launch_shell(4242, Some("4241")), "a backend under another parent");
    assert!(!is_launch_shell(4242, None), "no shell named");
    assert!(!is_launch_shell(4242, Some("shell")), "not a pid");
}

#[test]
fn start_time_is_stat_field_22_even_when_the_name_holds_parentheses() {
    // Every field before starttime differs, so an index off by one reads another number.
    let stat = "4242 (qs (x) y) S 1 2 3 4 5 6 7 8 9 10 11 12 13 14 15 16 17 0 5561234 123456 789\n";
    assert_eq!(start_time(stat).as_deref(), Some("5561234"));
    assert_eq!(start_time("4242 no name"), None, "a line with no closing parenthesis names no field");
}

#[test]
fn pages_spread_over_mappings_merge_into_one_run_and_duplicates_count_once() {
    // Two mappings of one file overlap on file page 2 and abut at page 3.
    let maps = "1000-4000 r--p 00000000 08:01 7 /usr/lib/libx.so\n\
                9000-b000 r--p 00002000 08:01 7 /usr/lib/libx.so\n";
    let present = |_start: u64, count: u64| -> Vec<bool> { vec![true; count as usize] };
    let ranges = ranges_from(maps, 0x1000, present);
    assert_eq!(ranges, vec![Range { path: "/usr/lib/libx.so".into(), offset: 0, length: 0x4000 }]);
}

#[test]
fn a_mapping_is_asked_about_no_more_pages_than_the_cap() {
    let maps = "0-ffffffff r--p 00000000 08:01 7 /usr/lib/big.so\n";
    let asked = std::cell::Cell::new(0u64);
    let present = |_start: u64, count: u64| -> Vec<bool> {
        asked.set(count);
        vec![false; count as usize]
    };
    assert!(ranges_from(maps, 0x1000, present).is_empty());
    assert_eq!(asked.get(), 256 * 1024 * 1024 / 0x1000);
}

#[test]
fn lines_without_all_fields_or_with_bad_numbers_are_skipped() {
    let maps = "1000-2000 r--p 00000000 08:01 /usr/lib/short.so\n\
                zz-2000 r--p 00000000 08:01 7 /usr/lib/bad.so\n\
                1000-2000 r--p 0000000g 08:01 7 /usr/lib/bad.so\n\
                1000-2000 r--p 00000000 08:01 7 relative.so\n";
    let present = |_start: u64, count: u64| -> Vec<bool> { vec![true; count as usize] };
    assert!(ranges_from(maps, 0x1000, present).is_empty());
}

#[test]
fn a_shell_pid_that_does_not_fit_is_no_shell() {
    assert!(!is_launch_shell(1, Some("4294967297")));
    assert!(is_launch_shell(7, Some("+7")));
    assert!(!is_launch_shell(7, Some(" 7")));
}

#[test]
fn the_list_lives_under_the_cache_home() {
    assert_eq!(list_path(Some("/c"), Some("/h")).as_deref(), Some("/c/flea/prefetch"));
    assert_eq!(list_path(None, Some("/h/")).as_deref(), Some("/h/.cache/flea/prefetch"));
    assert_eq!(list_path(Some(""), Some("/h")).as_deref(), Some("/h/.cache/flea/prefetch"));
    assert_eq!(list_path(None, None), None);
}

#[test]
fn the_list_text_reads_back_with_the_shell_it_was_recorded_from() {
    let shell = shell_line(4242, "1234567");
    assert_eq!(shell, "shell 4242 1234567");
    let ranges = vec![
        Range { path: "/usr/lib/libc.so.6".into(), offset: 0, length: 4096 },
        Range { path: "/usr/share/fonts/a b.ttf".into(), offset: 1048576, length: 8192 },
    ];
    let text = list_text_of(&shell, &ranges);
    assert_eq!(text, "flea-prefetch 2\nshell 4242 1234567\n0 4096 /usr/lib/libc.so.6\n1048576 8192 /usr/share/fonts/a b.ttf\n");
    assert_eq!(parse_list(&text), ranges, "the shell line is not read as a range");
    assert_eq!(recorded_by(&text).as_deref(), Some("shell 4242 1234567"));
    assert_eq!(recorded_by("flea-prefetch 2\n0 4096 /a\n"), None, "an older list names no shell");
    assert_eq!(recorded_by("other 2\nshell 1 2\n"), None);
}

#[test]
fn a_file_read_in_several_stretches_is_opened_once_for_the_run() {
    let r = |path: &str, offset: u64| lib::prefetch::Range { path: path.to_string(), offset, length: 4096 };
    let ranges = [r("/a", 0), r("/a", 8192), r("/b", 0), r("/a", 0)];
    assert_eq!(lib::prefetch::file_opens(&ranges), vec![true, false, true, true]);
    assert!(lib::prefetch::file_opens(&[]).is_empty());
}

#[test]
fn a_page_whose_bytes_pass_u64_is_left_out_of_the_list() {
    let near = "1000-3000 r--p ffffffffffffe000 00:1f 1234      /usr/lib/x.so\n";
    let ranges = lib::prefetch::ranges_from(near, 4096, |_, count| vec![true; count as usize]);
    let got: Vec<(String, u64, u64)> = ranges.into_iter().map(|r| (r.path, r.offset, r.length)).collect();
    assert_eq!(got, vec![("/usr/lib/x.so".to_string(), 0xffff_ffff_ffff_e000, 4096)]);
    let far = "7f3c1e200000-7f3c1e5b1000 r--p fffffffffffff000 00:1f 1234      /usr/lib/x.so\n";
    assert!(lib::prefetch::ranges_from(far, 4096, |_, count| vec![true; count as usize]).is_empty());
}

#[test]
fn prefetch_tests_the_list_is_written_whole_private_and_read_back() {
    let ranges = [Range { path: "/usr/lib/libc.so.6".into(), offset: 0, length: 4096 }];
    let text = list_text_of("shell 4242 1234567", &ranges);
    let parsed: Vec<(String, u64, u64)> = parse_list(&text).into_iter().map(|r| (r.path, r.offset, r.length)).collect();
    assert_eq!(parsed, vec![("/usr/lib/libc.so.6".to_string(), 0, 4096)], "the shell line is not read as a range");
    assert_eq!(recorded_by(&text).as_deref(), Some("shell 4242 1234567"));
}
