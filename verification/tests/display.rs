use tui_monitor::app::{SortBy, Tab};
use tui_monitor::ui::{fmt_bytes, header_cells, history_peak, process_window, sort_label, tab_index};

/// The formula the text stands for, written with floating point.
fn float_text(bytes: u64) -> String {
    const KB: u64 = 1024;
    const MB: u64 = KB * 1024;
    const GB: u64 = MB * 1024;
    if bytes >= GB {
        format!("{:.1}G", bytes as f64 / GB as f64)
    } else if bytes >= MB {
        format!("{:.1}M", bytes as f64 / MB as f64)
    } else if bytes >= KB {
        format!("{:.1}K", bytes as f64 / KB as f64)
    } else {
        format!("{}B", bytes)
    }
}

#[test]
fn fmt_bytes_examples() {
    assert_eq!(fmt_bytes(0), "0B");
    assert_eq!(fmt_bytes(1023), "1023B");
    assert_eq!(fmt_bytes(1024), "1.0K");
    assert_eq!(fmt_bytes(1536), "1.5K");
    assert_eq!(fmt_bytes(1048575), "1024.0K");
    assert_eq!(fmt_bytes(1048576), "1.0M");
    assert_eq!(fmt_bytes(5 * 1048576 + 104858), "5.1M");
    assert_eq!(fmt_bytes(1073741824), "1.0G");
    assert_eq!(fmt_bytes(3 * 1073741824 + 214748365), "3.2G");
    assert_eq!(fmt_bytes(u64::MAX), "17179869184.0G");
}

#[test]
fn fmt_bytes_halfway_rounds_to_even() {
    // 1280 B is exactly 1.25 KiB, 1792 B exactly 1.75 KiB
    assert_eq!(fmt_bytes(1280), "1.2K");
    assert_eq!(fmt_bytes(1792), "1.8K");
    assert_eq!(fmt_bytes(1280), float_text(1280));
    assert_eq!(fmt_bytes(1792), float_text(1792));
}

#[test]
fn fmt_bytes_agrees_with_float_formula() {
    let mut values: Vec<u64> = vec![];
    for i in 0..5000u64 {
        values.push(i);
        values.push(1024 + i * 37);
        values.push(1048576 + i * 104857);
        values.push(1073741824u64 + i * 107374182);
        values.push(i * 0x0003_3333_3333_3333);
    }
    for shift in 50..64 {
        let base = 1u64 << shift;
        for d in 0..2100u64 {
            values.push(base + d);
            values.push(base.wrapping_sub(d));
            values.push(u64::MAX - d);
        }
    }
    for v in values {
        assert_eq!(fmt_bytes(v), float_text(v), "bytes = {}", v);
    }
}

#[test]
fn labels_and_tab_positions() {
    assert_eq!(tab_index(Tab::Overview), 0);
    assert_eq!(tab_index(Tab::Processes), 1);
    assert_eq!(sort_label(SortBy::Cpu), "CPU");
    assert_eq!(sort_label(SortBy::Memory), "MEM");
    assert_eq!(sort_label(SortBy::Pid), "PID");
    assert_eq!(sort_label(SortBy::Name), "NAME");
}

#[test]
fn header_marks_ordering_column() {
    assert_eq!(header_cells(SortBy::Pid), vec!["PID \u{25BC}", "NAME", "CPU%", "MEM (MB)"]);
    assert_eq!(header_cells(SortBy::Name), vec!["PID", "NAME \u{25BC}", "CPU%", "MEM (MB)"]);
    assert_eq!(header_cells(SortBy::Cpu), vec!["PID", "NAME", "CPU% \u{25BC}", "MEM (MB)"]);
    assert_eq!(header_cells(SortBy::Memory), vec!["PID", "NAME", "CPU%", "MEM (MB) \u{25BC}"]);
}

#[test]
fn window_follows_scroll_and_stays_full() {
    // 23 rows tall: 20 visible rows
    assert_eq!(process_window(0, 100, 23), (0, 20));
    assert_eq!(process_window(10, 100, 23), (10, 30));
    assert_eq!(process_window(95, 100, 23), (80, 100));
    assert_eq!(process_window(usize::MAX, 100, 23), (80, 100));
    assert_eq!(process_window(5, 10, 23), (0, 10));
    assert_eq!(process_window(5, 10, 2), (5, 5));
    assert_eq!(process_window(0, 0, 0), (0, 0));
}

#[test]
fn peak_is_largest_sample_and_at_least_one() {
    assert_eq!(history_peak(&vec![], &vec![]), 1);
    assert_eq!(history_peak(&vec![0, 0], &vec![0]), 1);
    assert_eq!(history_peak(&vec![3, 9, 2], &vec![4]), 9);
    assert_eq!(history_peak(&vec![3], &vec![4, 12]), 12);
}
