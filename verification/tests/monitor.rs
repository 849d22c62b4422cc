use tui_monitor::app::{App, MemReading, ProcessInfo, Sample, SortBy, Tab};
use tui_monitor::history::{counter_total, push_history, HISTORY_LEN};
use tui_monitor::order::{name_before, sort_processes};

fn proc_info(pid: u32, name: &str, cpu: f32, mem_bytes: u64) -> ProcessInfo {
    ProcessInfo { pid, name: name.to_string(), cpu: cpu.to_bits(), mem_bytes }
}

fn sample(cores: &[f32], disk: u64, net: u64, processes: Vec<ProcessInfo>) -> Sample {
    Sample {
        cpu_usage: cores.iter().map(|c| c.to_bits()).collect(),
        mem_total: 8000,
        mem_used: 2000,
        swap_total: 100,
        swap_used: 10,
        disk_read: vec![disk, 1],
        disk_written: vec![disk * 2],
        net_received: vec![net],
        net_transmitted: vec![net, net],
        processes,
    }
}

fn pids(procs: &[ProcessInfo]) -> Vec<u32> {
    procs.iter().map(|p| p.pid).collect()
}

#[test]
fn push_history_drops_oldest_once_full() {
    let mut h: Vec<u64> = (0..HISTORY_LEN as u64).collect();
    push_history(&mut h, 1000);
    assert_eq!(h.len(), HISTORY_LEN);
    assert_eq!(h[0], 1);
    assert_eq!(h[HISTORY_LEN - 1], 1000);
    let mut short = vec![1u64, 2];
    push_history(&mut short, 3);
    assert_eq!(short, vec![1, 2, 3]);
}

#[test]
fn counter_total_sums_and_detects_overflow() {
    assert_eq!(counter_total(&vec![]), Some(0));
    assert_eq!(counter_total(&vec![1, 2, 3]), Some(6));
    assert_eq!(counter_total(&vec![u64::MAX, 0]), Some(u64::MAX));
    assert_eq!(counter_total(&vec![u64::MAX, 1]), None);
}

#[test]
fn new_fills_histories_and_takes_first_reading() {
    let app = App::new(sample(&[10.0, 20.0], 500, 40, vec![]));
    assert_eq!(app.cpu_history.len(), 2);
    for h in &app.cpu_history {
        assert_eq!(h.len(), HISTORY_LEN);
    }
    assert_eq!(f32::from_bits(app.cpu_history[0][HISTORY_LEN - 1]), 10.0);
    assert_eq!(f32::from_bits(app.cpu_history[1][HISTORY_LEN - 1]), 20.0);
    assert_eq!(app.cpu_history[0][0], 0);
    assert_eq!(app.mem_history.len(), HISTORY_LEN);
    assert_eq!(app.mem_history[HISTORY_LEN - 1], MemReading { used: 2000, total: 8000 });
    assert_eq!(app.disk_read_bytes, 501);
    assert_eq!(app.disk_write_bytes, 1000);
    assert_eq!(app.net_rx_bytes, 40);
    assert_eq!(app.net_tx_bytes, 80);
    assert_eq!(app.disk_read_history[HISTORY_LEN - 1], 501);
    assert_eq!(app.tab, Tab::Overview);
    assert_eq!(app.sort_by, SortBy::Cpu);
    assert_eq!(app.process_scroll, 0);
}

#[test]
fn new_without_cores_keeps_one_history() {
    let app = App::new(sample(&[], 0, 0, vec![]));
    assert_eq!(app.cpu_history.len(), 1);
    assert!(app.cpu_history[0].iter().all(|v| *v == 0));
    assert!(app.cpu_usage.is_empty());
}

#[test]
fn tick_reports_bytes_moved_in_the_interval() {
    let mut app = App::new(sample(&[5.0], 500, 40, vec![]));
    app.tick(sample(&[7.0], 700, 100, vec![]));
    // the per-device counts of this interval, summed
    assert_eq!(app.disk_read_bytes, 701);
    assert_eq!(app.disk_write_bytes, 1400);
    assert_eq!(app.net_rx_bytes, 100);
    assert_eq!(app.net_tx_bytes, 200);
    assert_eq!(app.disk_read_history[HISTORY_LEN - 2], 501);
    assert_eq!(app.disk_read_history[HISTORY_LEN - 1], 701);
    assert_eq!(f32::from_bits(app.cpu_usage[0]), 7.0);
    // a quieter interval shows less, not a negative or clipped difference
    app.tick(sample(&[7.0], 100, 10, vec![]));
    assert_eq!(app.disk_read_bytes, 101);
    assert_eq!(app.net_rx_bytes, 10);
    assert_eq!(app.net_tx_bytes, 20);
    for h in [&app.disk_read_history, &app.disk_write_history, &app.net_rx_history, &app.net_tx_history] {
        assert_eq!(h.len(), HISTORY_LEN);
    }
}

#[test]
fn tick_ignores_extra_cores() {
    let mut app = App::new(sample(&[5.0], 0, 0, vec![]));
    app.tick(sample(&[1.0, 2.0, 3.0], 0, 0, vec![]));
    assert_eq!(app.cpu_history.len(), 1);
    assert_eq!(app.cpu_usage.len(), 3);
    assert_eq!(f32::from_bits(app.cpu_history[0][HISTORY_LEN - 1]), 1.0);
}

#[test]
fn tabs_toggle() {
    let mut app = App::new(sample(&[1.0], 0, 0, vec![]));
    app.next_tab();
    assert_eq!(app.tab, Tab::Processes);
    app.next_tab();
    assert_eq!(app.tab, Tab::Overview);
    app.prev_tab();
    assert_eq!(app.tab, Tab::Processes);
    app.prev_tab();
    assert_eq!(app.tab, Tab::Overview);
}

#[test]
fn scrolling_only_on_process_tab() {
    let mut app = App::new(sample(&[1.0], 0, 0, vec![]));
    app.scroll_down();
    assert_eq!(app.process_scroll, 0);
    app.next_tab();
    app.scroll_down();
    app.scroll_down();
    assert_eq!(app.process_scroll, 2);
    app.scroll_up();
    assert_eq!(app.process_scroll, 1);
    app.scroll_up();
    app.scroll_up();
    assert_eq!(app.process_scroll, 0);
    app.process_scroll = usize::MAX;
    app.scroll_down();
    assert_eq!(app.process_scroll, usize::MAX);
}

#[test]
fn sort_cycles_only_on_process_tab() {
    let mut app = App::new(sample(&[1.0], 0, 0, vec![]));
    app.cycle_sort();
    assert_eq!(app.sort_by, SortBy::Cpu);
    app.next_tab();
    let mut seen = vec![];
    for _ in 0..4 {
        app.cycle_sort();
        seen.push(app.sort_by);
    }
    assert_eq!(seen, vec![SortBy::Memory, SortBy::Pid, SortBy::Name, SortBy::Cpu]);
}

fn table() -> Vec<ProcessInfo> {
    vec![
        proc_info(30, "zsh", 1.5, 300),
        proc_info(10, "bash", 20.0, 100),
        proc_info(20, "Xorg", 1.5, 900),
        proc_info(5, "bash", 0.0, 100),
        proc_info(40, "init", 20.0, 50),
    ]
}

#[test]
fn tick_orders_processes_by_current_sort() {
    let mut app = App::new(sample(&[1.0], 0, 0, table()));
    // CPU, highest first, ties in the order they came
    assert_eq!(pids(&app.processes), vec![10, 40, 30, 20, 5]);
    app.next_tab();
    app.cycle_sort();
    // not reordered until the next refresh
    assert_eq!(pids(&app.processes), vec![10, 40, 30, 20, 5]);
    app.tick(sample(&[1.0], 0, 0, table()));
    assert_eq!(pids(&app.processes), vec![20, 30, 10, 5, 40]);
    app.cycle_sort();
    app.tick(sample(&[1.0], 0, 0, table()));
    assert_eq!(pids(&app.processes), vec![5, 10, 20, 30, 40]);
    app.cycle_sort();
    app.tick(sample(&[1.0], 0, 0, table()));
    assert_eq!(pids(&app.processes), vec![20, 10, 5, 40, 30]);
}

#[test]
fn sort_matches_std_stable_sort() {
    let names = ["a", "b", "ab", "", "é", "Z", "ba", "a"];
    let mut input = vec![];
    for i in 0..40u32 {
        let cpu = ((i * 7) % 5) as f32 * 2.5;
        input.push(proc_info(
            (i * 13) % 17,
            names[(i as usize * 3) % names.len()],
            cpu,
            ((i * 11) % 4) as u64 * 1024,
        ));
    }
    for by in [SortBy::Cpu, SortBy::Memory, SortBy::Pid, SortBy::Name] {
        let mut expected: Vec<(u32, String, u32, u64)> =
            input.iter().map(|p| (p.pid, p.name.clone(), p.cpu, p.mem_bytes)).collect();
        match by {
            SortBy::Cpu => expected.sort_by(|a, b| {
                f32::from_bits(b.2).partial_cmp(&f32::from_bits(a.2)).unwrap_or(std::cmp::Ordering::Equal)
            }),
            SortBy::Memory => expected.sort_by(|a, b| b.3.cmp(&a.3)),
            SortBy::Pid => expected.sort_by_key(|p| p.0),
            SortBy::Name => expected.sort_by(|a, b| a.1.cmp(&b.1)),
        }
        let copy: Vec<ProcessInfo> = input
            .iter()
            .map(|p| ProcessInfo { pid: p.pid, name: p.name.clone(), cpu: p.cpu, mem_bytes: p.mem_bytes })
            .collect();
        let got: Vec<(u32, String, u32, u64)> = sort_processes(copy, by)
            .into_iter()
            .map(|p| (p.pid, p.name, p.cpu, p.mem_bytes))
            .collect();
        assert_eq!(got, expected);
    }
}

#[test]
fn names_compare_lexicographically() {
    assert!(name_before(&"a".to_string(), &"b".to_string()));
    assert!(name_before(&"".to_string(), &"a".to_string()));
    assert!(name_before(&"ab".to_string(), &"b".to_string()));
    assert!(name_before(&"Z".to_string(), &"a".to_string()));
    assert!(name_before(&"z".to_string(), &"é".to_string()));
    assert!(!name_before(&"a".to_string(), &"a".to_string()));
    assert!(!name_before(&"ab".to_string(), &"a".to_string()));
}

#[test]
fn sorting_a_sorted_table_keeps_it() {
    let once = sort_processes(table(), SortBy::Name);
    let before = pids(&once);
    let twice = sort_processes(once, SortBy::Name);
    assert_eq!(pids(&twice), before);
}

#[test]
fn cpu_order_follows_the_numbers() {
    let figures = [3.0f32, -1.0, 0.0, -0.0, 2.5, -7.5, 0.0, 100.0, -0.0];
    let input: Vec<ProcessInfo> =
        figures.iter().enumerate().map(|(i, c)| proc_info(i as u32, "p", *c, 0)).collect();
    let mut expected: Vec<(u32, f32)> = figures.iter().enumerate().map(|(i, c)| (i as u32, *c)).collect();
    expected.sort_by(|a, b| b.1.partial_cmp(&a.1).unwrap_or(std::cmp::Ordering::Equal));
    let got = sort_processes(input, SortBy::Cpu);
    assert_eq!(pids(&got), expected.iter().map(|e| e.0).collect::<Vec<u32>>());
}

#[test]
fn large_table_sorts_like_std() {
    let mut input = vec![];
    let mut x: u64 = 12345;
    for i in 0..1500u32 {
        x = x.wrapping_mul(6364136223846793005).wrapping_add(1442695040888963407);
        let name = format!("p{}", (x >> 40) % 97);
        input.push(proc_info(i, &name, ((x >> 20) % 50) as f32 / 4.0, (x >> 50) % 300));
    }
    for by in [SortBy::Cpu, SortBy::Memory, SortBy::Pid, SortBy::Name] {
        let mut expected: Vec<(u32, String, u32, u64)> =
            input.iter().map(|p| (p.pid, p.name.clone(), p.cpu, p.mem_bytes)).collect();
        match by {
            SortBy::Cpu => expected.sort_by(|a, b| {
                f32::from_bits(b.2).partial_cmp(&f32::from_bits(a.2)).unwrap_or(std::cmp::Ordering::Equal)
            }),
            SortBy::Memory => expected.sort_by(|a, b| b.3.cmp(&a.3)),
            SortBy::Pid => expected.sort_by_key(|p| p.0),
            SortBy::Name => expected.sort_by(|a, b| a.1.cmp(&b.1)),
        }
        let copy: Vec<ProcessInfo> = input
            .iter()
            .map(|p| ProcessInfo { pid: p.pid, name: p.name.clone(), cpu: p.cpu, mem_bytes: p.mem_bytes })
            .collect();
        let got: Vec<(u32, String, u32, u64)> = sort_processes(copy, by)
            .into_iter()
            .map(|p| (p.pid, p.name, p.cpu, p.mem_bytes))
            .collect();
        assert_eq!(got, expected);
    }
}
