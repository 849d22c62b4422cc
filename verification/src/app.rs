use vstd::prelude::*;
use crate::history::{HISTORY_LEN, pushed, push_history, total, counter_total};
use crate::order::{stably_sorted, sort_processes, precedes};

verus! {

/// The two pages of the viewer.
#[derive(Clone, Copy, PartialEq, Eq, Debug, Structural)]
pub enum Tab {
    Overview,
    Processes,
}

/// The column by which the process table is ordered.
#[derive(Clone, Copy, PartialEq, Eq, Debug, Structural)]
pub enum SortBy {
    Cpu,
    Memory,
    Pid,
    Name,
}

/// One row of the process table.
///
/// `cpu` is the bit pattern of the usage percentage as the probe reports it
/// (an IEEE-754 single); the table orders it by the number it encodes (see
/// `order::cpu_rank`). `mem_bytes` is the resident memory in bytes.
pub struct ProcessInfo {
    pub pid: u32,
    pub name: String,
    pub cpu: u32,
    pub mem_bytes: u64,
}

/// One memory reading: bytes in use and bytes installed.
#[derive(Clone, Copy, PartialEq, Eq, Debug, Structural)]
pub struct MemReading {
    pub used: u64,
    pub total: u64,
}

/// Everything the monitor reads from the system at one refresh.
///
/// `cpu_usage` holds one usage figure per core, as bit patterns like
/// `ProcessInfo::cpu`. The disk and network lists hold, per device, the
/// bytes moved since the previous refresh; the monitor works with their
/// sums.
pub struct Sample {
    pub cpu_usage: Vec<u32>,
    pub mem_total: u64,
    pub mem_used: u64,
    pub swap_total: u64,
    pub swap_used: u64,
    pub disk_read: Vec<u64>,
    pub disk_written: Vec<u64>,
    pub net_received: Vec<u64>,
    pub net_transmitted: Vec<u64>,
    pub processes: Vec<ProcessInfo>,
}

impl Sample {
    /// Every per-device sum fits in a `u64`.
    pub open spec fn sums_fit(&self) -> bool {
        &&& total(self.disk_read@) <= u64::MAX
        &&& total(self.disk_written@) <= u64::MAX
        &&& total(self.net_received@) <= u64::MAX
        &&& total(self.net_transmitted@) <= u64::MAX
    }
}

/// The state of the monitor: the latest readings, a fixed-length history
/// of each, the process table and what the viewer shows.
pub struct App {
    /// Per-core usage history (bit patterns, see `ProcessInfo::cpu`).
    pub cpu_history: Vec<Vec<u32>>,
    /// Per-core usage at the latest refresh.
    pub cpu_usage: Vec<u32>,
    pub mem_total: u64,
    pub mem_used: u64,
    pub swap_total: u64,
    pub swap_used: u64,
    pub mem_history: Vec<MemReading>,
    /// Bytes read from all disks since the previous refresh.
    pub disk_read_bytes: u64,
    /// Bytes written to all disks since the previous refresh.
    pub disk_write_bytes: u64,
    pub disk_read_history: Vec<u64>,
    pub disk_write_history: Vec<u64>,
    /// Bytes received on all interfaces since the previous refresh.
    pub net_rx_bytes: u64,
    /// Bytes sent on all interfaces since the previous refresh.
    pub net_tx_bytes: u64,
    pub net_rx_history: Vec<u64>,
    pub net_tx_history: Vec<u64>,
    pub processes: Vec<ProcessInfo>,
    pub process_scroll: usize,
    pub sort_by: SortBy,
    pub tab: Tab,
}

/// The other tab.
pub open spec fn toggled(tab: Tab) -> Tab {
    match tab {
        Tab::Overview => Tab::Processes,
        Tab::Processes => Tab::Overview,
    }
}

/// The order that follows `by`: CPU, memory, pid, name, then CPU again.
pub open spec fn next_sort(by: SortBy) -> SortBy {
    match by {
        SortBy::Cpu => SortBy::Memory,
        SortBy::Memory => SortBy::Pid,
        SortBy::Pid => SortBy::Name,
        SortBy::Name => SortBy::Cpu,
    }
}

/// The scroll offset after one step down; it stops at the largest offset.
pub open spec fn scrolled_down(scroll: usize) -> usize {
    if scroll < usize::MAX {
        (scroll + 1) as usize
    } else {
        scroll
    }
}

/// The scroll offset after one step up; it stops at the top.
pub open spec fn scrolled_up(scroll: usize) -> usize {
    if scroll > 0 {
        (scroll - 1) as usize
    } else {
        0
    }
}

/// The number of per-core histories kept for a first reading with
/// `cores` cores: one per core, and at least one.
pub open spec fn core_slots(cores: nat) -> nat {
    if cores >= 1 {
        cores
    } else {
        1
    }
}

/// `n` copies of `value`.
fn filled<T: Copy>(value: T, n: usize) -> (res: Vec<T>)
    ensures
        res@ == Seq::new(n as nat, |i: int| value),
{
    let mut v: Vec<T> = Vec::new();
    let mut i: usize = 0;
    while i < n
        invariant
            i <= n,
            v@ == Seq::new(i as nat, |k: int| value),
        decreases n - i,
    {
        v.push(value);
        i = i + 1;
        assert(v@ =~= Seq::new(i as nat, |k: int| value));
    }
    v
}

/// Appends each core's latest figure to that core's history; cores
/// without a history, or histories without a figure, are left alone.
fn push_core_samples(history: &mut Vec<Vec<u32>>, usage: &Vec<u32>)
    ensures
        final(history).len() == old(history).len(),
        forall|i: int|
            0 <= i < final(history).len() ==> #[trigger] final(history)[i]@ == if i
                < usage.len() {
                pushed(old(history)[i]@, usage[i])
            } else {
                old(history)[i]@
            },
{
    let ghost before = *history;
    let n = history.len();
    let mut i: usize = 0;
    while i < n
        invariant
            n == history.len(),
            n == before.len(),
            i <= n,
            forall|k: int|
                0 <= k < n ==> #[trigger] history[k]@ == if k < i && k < usage.len() {
                    pushed(before[k]@, usage[k])
                } else {
                    before[k]@
                },
        decreases n - i,
    {
        if i < usage.len() {
            push_history(&mut history[i], usage[i]);
        }
        i = i + 1;
    }
}

impl App {
    /// Every history holds exactly `HISTORY_LEN` samples and there is at
    /// least one per-core history.
    pub open spec fn wf(&self) -> bool {
        &&& self.cpu_history.len() >= 1
        &&& forall|i: int| 0 <= i < self.cpu_history.len() ==> #[trigger] self.cpu_history[i].len() == HISTORY_LEN
        &&& self.mem_history.len() == HISTORY_LEN
        &&& self.disk_read_history.len() == HISTORY_LEN
        &&& self.disk_write_history.len() == HISTORY_LEN
        &&& self.net_rx_history.len() == HISTORY_LEN
        &&& self.net_tx_history.len() == HISTORY_LEN
    }

    /// `self` is `old` after one refresh with the readings `s`.
    pub open spec fn refreshed_from(&self, old: &App, s: &Sample) -> bool {
        &&& self.cpu_usage@ == s.cpu_usage@
        &&& self.cpu_history.len() == old.cpu_history.len()
        &&& forall|i: int|
            0 <= i < self.cpu_history.len() ==> #[trigger] self.cpu_history[i]@ == if i
                < s.cpu_usage.len() {
                pushed(old.cpu_history[i]@, s.cpu_usage[i])
            } else {
                old.cpu_history[i]@
            }
        &&& self.mem_total == s.mem_total
        &&& self.mem_used == s.mem_used
        &&& self.swap_total == s.swap_total
        &&& self.swap_used == s.swap_used
        &&& self.mem_history@ == pushed(
            old.mem_history@,
            MemReading { used: s.mem_used, total: s.mem_total },
        )
        &&& self.disk_read_bytes == total(s.disk_read@)
        &&& self.disk_write_bytes == total(s.disk_written@)
        &&& self.net_rx_bytes == total(s.net_received@)
        &&& self.net_tx_bytes == total(s.net_transmitted@)
        &&& self.disk_read_history@ == pushed(old.disk_read_history@, self.disk_read_bytes)
        &&& self.disk_write_history@ == pushed(old.disk_write_history@, self.disk_write_bytes)
        &&& self.net_rx_history@ == pushed(old.net_rx_history@, self.net_rx_bytes)
        &&& self.net_tx_history@ == pushed(old.net_tx_history@, self.net_tx_bytes)
        &&& stably_sorted(s.processes@, self.processes@, old.sort_by)
        &&& self.process_scroll == old.process_scroll
        &&& self.sort_by == old.sort_by
        &&& self.tab == old.tab
    }

    /// The state before the first refresh: `core_count` per-core histories,
    /// every history full of zero samples, all counters at zero, no
    /// processes, the overview tab, ordered by CPU.
    pub open spec fn is_blank(&self, core_count: nat) -> bool {
        &&& self.cpu_history.len() == core_count
        &&& forall|i: int|
            0 <= i < core_count ==> #[trigger] self.cpu_history[i]@ == Seq::new(
                HISTORY_LEN as nat,
                |k: int| 0u32,
            )
        &&& self.cpu_usage@ == Seq::new(core_count, |k: int| 0u32)
        &&& self.mem_total == 0 && self.mem_used == 0
        &&& self.swap_total == 0 && self.swap_used == 0
        &&& self.mem_history@ == Seq::new(
            HISTORY_LEN as nat,
            |k: int| MemReading { used: 0, total: 0 },
        )
        &&& self.disk_read_bytes == 0 && self.disk_write_bytes == 0
        &&& self.disk_read_history@ == Seq::new(HISTORY_LEN as nat, |k: int| 0u64)
        &&& self.disk_write_history@ == Seq::new(HISTORY_LEN as nat, |k: int| 0u64)
        &&& self.net_rx_bytes == 0 && self.net_tx_bytes == 0
        &&& self.net_rx_history@ == Seq::new(HISTORY_LEN as nat, |k: int| 0u64)
        &&& self.net_tx_history@ == Seq::new(HISTORY_LEN as nat, |k: int| 0u64)
        &&& self.processes@.len() == 0
        &&& self.process_scroll == 0
        &&& self.sort_by == SortBy::Cpu
        &&& self.tab == Tab::Overview
    }

    /// Builds the monitor from its first readings: one history per core
    /// (at least one), each history filled with zero samples, then one
    /// refresh with `sample`.
    pub fn new(sample: Sample) -> (app: App)
        requires
            sample.sums_fit(),
        ensures
            app.wf(),
            exists|start: App|
                start.is_blank(core_slots(sample.cpu_usage@.len())) && app.refreshed_from(
                    &start,
                    &sample,
                ),
    {
        let core_count = if sample.cpu_usage.len() >= 1 {
            sample.cpu_usage.len()
        } else {
            1
        };
        let mut cpu_history: Vec<Vec<u32>> = Vec::new();
        let mut i: usize = 0;
        while i < core_count
            invariant
                i <= core_count,
                cpu_history.len() == i,
                forall|k: int|
                    0 <= k < i ==> #[trigger] cpu_history[k]@ == Seq::new(
                        HISTORY_LEN as nat,
                        |j: int| 0u32,
                    ),
            decreases core_count - i,
        {
            cpu_history.push(filled(0u32, HISTORY_LEN));
            i = i + 1;
        }
        let mut app = App {
            cpu_history,
            cpu_usage: filled(0u32, core_count),
            mem_total: 0,
            mem_used: 0,
            swap_total: 0,
            swap_used: 0,
            mem_history: filled(MemReading { used: 0, total: 0 }, HISTORY_LEN),
            disk_read_bytes: 0,
            disk_write_bytes: 0,
            disk_read_history: filled(0u64, HISTORY_LEN),
            disk_write_history: filled(0u64, HISTORY_LEN),
            net_rx_bytes: 0,
            net_tx_bytes: 0,
            net_rx_history: filled(0u64, HISTORY_LEN),
            net_tx_history: filled(0u64, HISTORY_LEN),
            processes: Vec::new(),
            process_scroll: 0,
            sort_by: SortBy::Cpu,
            tab: Tab::Overview,
        };
        let ghost start = app;
        assert(start.is_blank(core_slots(sample.cpu_usage@.len())));
        assert(start.wf());
        let ghost s = sample;
        app.refresh(sample);
        proof {
            lemma_refresh_keeps_wf(&start, &s, &app);
        }
        app
    }

    /// Takes in the readings of the next refresh.
    pub fn tick(&mut self, sample: Sample)
        requires
            sample.sums_fit(),
        ensures
            final(self).refreshed_from(old(self), &sample),
            old(self).wf() ==> final(self).wf(),
    {
        let ghost s = sample;
        self.refresh(sample);
        proof {
            if old(self).wf() {
                lemma_refresh_keeps_wf(old(self), &s, self);
            }
        }
    }

    /// Shows the other tab.
    pub fn next_tab(&mut self)
        ensures
            *final(self) == (App { tab: toggled(old(self).tab), ..*old(self) }),
    {
        self.tab = match self.tab {
            Tab::Overview => Tab::Processes,
            Tab::Processes => Tab::Overview,
        };
    }

    /// Shows the other tab (with two tabs, the same as `next_tab`).
    pub fn prev_tab(&mut self)
        ensures
            *final(self) == (App { tab: toggled(old(self).tab), ..*old(self) }),
    {
        self.next_tab();
    }

    /// Moves the process table one row down; only on the process tab.
    pub fn scroll_down(&mut self)
        ensures
            *final(self) == (App {
                process_scroll: if old(self).tab == Tab::Processes {
                    scrolled_down(old(self).process_scroll)
                } else {
                    old(self).process_scroll
                },
                ..*old(self)
            }),
    {
        if self.tab == Tab::Processes {
            self.process_scroll = self.process_scroll.saturating_add(1);
        }
    }

    /// Moves the process table one row up; only on the process tab.
    pub fn scroll_up(&mut self)
        ensures
            *final(self) == (App {
                process_scroll: if old(self).tab == Tab::Processes {
                    scrolled_up(old(self).process_scroll)
                } else {
                    old(self).process_scroll
                },
                ..*old(self)
            }),
    {
        if self.tab == Tab::Processes {
            self.process_scroll = self.process_scroll.saturating_sub(1);
        }
    }

    /// Switches the process table to the next ordering; only on the
    /// process tab. The table itself is reordered at the next refresh.
    pub fn cycle_sort(&mut self)
        ensures
            *final(self) == (App {
                sort_by: if old(self).tab == Tab::Processes {
                    next_sort(old(self).sort_by)
                } else {
                    old(self).sort_by
                },
                ..*old(self)
            }),
    {
        if self.tab == Tab::Processes {
            self.sort_by = match self.sort_by {
                SortBy::Cpu => SortBy::Memory,
                SortBy::Memory => SortBy::Pid,
                SortBy::Pid => SortBy::Name,
                SortBy::Name => SortBy::Cpu,
            };
        }
    }

    /// Takes in one refresh worth of readings.
    fn refresh(&mut self, s: Sample)
        requires
            s.sums_fit(),
        ensures
            final(self).refreshed_from(old(self), &s),
    {
        push_core_samples(&mut self.cpu_history, &s.cpu_usage);
        self.cpu_usage = s.cpu_usage;

        self.mem_total = s.mem_total;
        self.mem_used = s.mem_used;
        self.swap_total = s.swap_total;
        self.swap_used = s.swap_used;
        push_history(&mut self.mem_history, MemReading { used: s.mem_used, total: s.mem_total });

        self.disk_read_bytes = counter_total(&s.disk_read).unwrap();
        self.disk_write_bytes = counter_total(&s.disk_written).unwrap();
        push_history(&mut self.disk_read_history, self.disk_read_bytes);
        push_history(&mut self.disk_write_history, self.disk_write_bytes);

        self.net_rx_bytes = counter_total(&s.net_received).unwrap();
        self.net_tx_bytes = counter_total(&s.net_transmitted).unwrap();
        push_history(&mut self.net_rx_history, self.net_rx_bytes);
        push_history(&mut self.net_tx_history, self.net_tx_bytes);

        self.processes = sort_processes(s.processes, self.sort_by);
    }
}

/// Switching tabs goes from the overview to the processes and back;
/// switching twice comes back to the tab one started on, so `prev_tab`
/// undoes `next_tab` and the other way round.
pub proof fn lemma_toggle_twice(tab: Tab)
    ensures
        toggled(Tab::Overview) == Tab::Processes,
        toggled(Tab::Processes) == Tab::Overview,
        toggled(toggled(tab)) == tab,
        toggled(tab) != tab,
{
}

/// Cycling the ordering goes CPU, memory, pid, name and back to CPU:
/// it passes through all four orderings and is back where it started
/// after four steps.
pub proof fn lemma_sort_cycle(by: SortBy)
    ensures
        next_sort(SortBy::Cpu) == SortBy::Memory,
        next_sort(SortBy::Memory) == SortBy::Pid,
        next_sort(SortBy::Pid) == SortBy::Name,
        next_sort(SortBy::Name) == SortBy::Cpu,
        next_sort(next_sort(next_sort(next_sort(by)))) == by,
        next_sort(by) != by,
        next_sort(next_sort(by)) != by,
        next_sort(next_sort(next_sort(by))) != by,
{
}

/// A step up undoes a step down unless the offset was already at its
/// largest value, and a step down undoes a step up unless the table was
/// already at the top.
pub proof fn lemma_scroll_round_trip(scroll: usize)
    ensures
        scroll < usize::MAX ==> scrolled_down(scroll) == scroll + 1,
        scroll > 0 ==> scrolled_up(scroll) == scroll - 1,
        scroll < usize::MAX ==> scrolled_up(scrolled_down(scroll)) == scroll,
        scroll > 0 ==> scrolled_down(scrolled_up(scroll)) == scroll,
        scrolled_up(0) == 0,
        scrolled_down(usize::MAX) == usize::MAX,
{
}

/// The first reading gives one history per core, and one when no core
/// is reported. Each core's history ends with that core's figure after
/// `HISTORY_LEN - 1` zero samples; the memory history ends with the
/// memory reading, and the disk and network figures are the sums of the
/// per-device counts.
pub proof fn lemma_first_reading(app: &App, sample: &Sample)
    requires
        exists|start: App|
            start.is_blank(core_slots(sample.cpu_usage@.len())) && app.refreshed_from(
                &start,
                sample,
            ),
    ensures
        sample.cpu_usage@.len() >= 1 ==> app.cpu_history.len() == sample.cpu_usage@.len(),
        sample.cpu_usage@.len() == 0 ==> app.cpu_history.len() == 1,
        forall|i: int|
            0 <= i < sample.cpu_usage@.len() ==> {
                &&& #[trigger] app.cpu_history[i]@.len() == HISTORY_LEN
                &&& app.cpu_history[i]@.last() == sample.cpu_usage@[i]
                &&& forall|k: int| 0 <= k < HISTORY_LEN - 1 ==> app.cpu_history[i]@[k] == 0
            },
        shifted_in(
            Seq::new(60, |k: int| MemReading { used: 0, total: 0 }),
            app.mem_history@,
            MemReading { used: sample.mem_used, total: sample.mem_total },
        ),
        app.disk_read_bytes == total(sample.disk_read@),
        app.disk_write_bytes == total(sample.disk_written@),
        app.net_rx_bytes == total(sample.net_received@),
        app.net_tx_bytes == total(sample.net_transmitted@),
        shifted_in(Seq::new(60, |k: int| 0u64), app.disk_read_history@, app.disk_read_bytes),
        shifted_in(Seq::new(60, |k: int| 0u64), app.disk_write_history@, app.disk_write_bytes),
        shifted_in(Seq::new(60, |k: int| 0u64), app.net_rx_history@, app.net_rx_bytes),
        shifted_in(Seq::new(60, |k: int| 0u64), app.net_tx_history@, app.net_tx_bytes),
        app.processes@.len() == sample.processes@.len(),
        app.tab == Tab::Overview,
        app.sort_by == SortBy::Cpu,
        app.process_scroll == 0,
{
    let start = choose|start: App|
        start.is_blank(core_slots(sample.cpu_usage@.len())) && app.refreshed_from(&start, sample);
    assert forall|i: int| 0 <= i < sample.cpu_usage@.len() implies {
        &&& #[trigger] app.cpu_history[i]@.len() == HISTORY_LEN
        &&& app.cpu_history[i]@.last() == sample.cpu_usage@[i]
        &&& forall|k: int| 0 <= k < HISTORY_LEN - 1 ==> app.cpu_history[i]@[k] == 0
    } by {
        assert(start.cpu_history[i]@ == Seq::new(HISTORY_LEN as nat, |k: int| 0u32));
    }
    crate::history::lemma_pushed_full(start.mem_history@, MemReading { used: sample.mem_used, total: sample.mem_total });
    crate::history::lemma_pushed_full(start.disk_read_history@, app.disk_read_bytes);
    crate::history::lemma_pushed_full(start.disk_write_history@, app.disk_write_bytes);
    crate::history::lemma_pushed_full(start.net_rx_history@, app.net_rx_bytes);
    crate::history::lemma_pushed_full(start.net_tx_history@, app.net_tx_bytes);
}

/// `new` is the full history `old` with `value` appended as the newest
/// sample and the oldest one dropped.
pub open spec fn shifted_in<T>(old: Seq<T>, new: Seq<T>, value: T) -> bool {
    &&& new.len() == 60
    &&& new[59] == value
    &&& forall|k: int| 0 <= k < 59 ==> #[trigger] new[k] == old[k + 1]
}

/// What one refresh does to a well-formed monitor: each history takes the
/// new figure as its newest sample and drops its oldest; the disk and
/// network figures are the sums of the per-device counts of the interval;
/// the memory figures and per-core usage are the readings; the process
/// table holds exactly the processes read, ordered by the current
/// ordering; the tab, the ordering and the scroll offset stay.
pub proof fn lemma_refresh_effects(old: &App, s: &Sample, new: &App)
    requires
        old.wf(),
        new.refreshed_from(old, s),
    ensures
        new.wf(),
        new.cpu_history.len() == old.cpu_history.len(),
        forall|i: int|
            0 <= i < new.cpu_history.len() && i < s.cpu_usage@.len() ==> shifted_in(
                old.cpu_history[i]@,
                #[trigger] new.cpu_history[i]@,
                s.cpu_usage@[i],
            ),
        forall|i: int|
            0 <= i < new.cpu_history.len() && i >= s.cpu_usage@.len() ==> #[trigger] new.cpu_history[i]@
                == old.cpu_history[i]@,
        new.cpu_usage@ == s.cpu_usage@,
        new.mem_used == s.mem_used && new.mem_total == s.mem_total,
        new.swap_used == s.swap_used && new.swap_total == s.swap_total,
        shifted_in(old.mem_history@, new.mem_history@, MemReading { used: s.mem_used, total: s.mem_total }),
        new.disk_read_bytes == total(s.disk_read@),
        new.disk_write_bytes == total(s.disk_written@),
        new.net_rx_bytes == total(s.net_received@),
        new.net_tx_bytes == total(s.net_transmitted@),
        shifted_in(old.disk_read_history@, new.disk_read_history@, new.disk_read_bytes),
        shifted_in(old.disk_write_history@, new.disk_write_history@, new.disk_write_bytes),
        shifted_in(old.net_rx_history@, new.net_rx_history@, new.net_rx_bytes),
        shifted_in(old.net_tx_history@, new.net_tx_history@, new.net_tx_bytes),
        new.processes@.to_multiset() == s.processes@.to_multiset(),
        forall|i: int, j: int|
            0 <= i < j < new.processes@.len() ==> !precedes(
                #[trigger] new.processes@[j],
                #[trigger] new.processes@[i],
                old.sort_by,
            ),
        new.tab == old.tab,
        new.sort_by == old.sort_by,
        new.process_scroll == old.process_scroll,
{
    lemma_refresh_keeps_wf(old, s, new);
    assert forall|i: int|
        0 <= i < new.cpu_history.len() && i < s.cpu_usage@.len() implies shifted_in(
        old.cpu_history[i]@,
        #[trigger] new.cpu_history[i]@,
        s.cpu_usage@[i],
    ) by {
        assert(old.cpu_history[i].len() == HISTORY_LEN);
        crate::history::lemma_pushed_full(old.cpu_history[i]@, s.cpu_usage@[i]);
    }
    crate::history::lemma_pushed_full(old.mem_history@, MemReading { used: s.mem_used, total: s.mem_total });
    crate::history::lemma_pushed_full(old.disk_read_history@, new.disk_read_bytes);
    crate::history::lemma_pushed_full(old.disk_write_history@, new.disk_write_bytes);
    crate::history::lemma_pushed_full(old.net_rx_history@, new.net_rx_bytes);
    crate::history::lemma_pushed_full(old.net_tx_history@, new.net_tx_bytes);
    crate::order::lemma_stable_arrangement_same_items(s.processes@, new.processes@, old.sort_by);
}

/// A refresh keeps every history at `HISTORY_LEN` samples and keeps the
/// per-core histories.
pub proof fn lemma_refresh_keeps_wf(old: &App, s: &Sample, new: &App)
    requires
        old.wf(),
        new.refreshed_from(old, s),
    ensures
        new.wf(),
{
    assert forall|i: int| 0 <= i < new.cpu_history.len() implies #[trigger] new.cpu_history[i].len()
        == HISTORY_LEN by {
        assert(old.cpu_history[i].len() == HISTORY_LEN);
    }
}

} // verus!
