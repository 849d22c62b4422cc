use vstd::prelude::*;
use crate::app::{SortBy, Tab};
use crate::text::{
    is_numeral, is_digit, read_decimal, digit_value, lemma_decimal_reads_back, lemma_digit_char,
    lemma_round_half_even_close, lemma_nearest_double_close, decimal, nearest_double, round_half_even, tenths_text, append_decimal, digit_text,
    nearest_double_exec, round_half_even_exec,
};

verus! {

/// Bytes in a kibibyte.
pub const KIB: u64 = 1024;

/// Bytes in a mebibyte.
pub const MIB: u64 = 1048576;

/// Bytes in a gibibyte.
pub const GIB: u64 = 1073741824;

/// A byte count in `unit`s with one decimal place, rounded to nearest
/// (halfway to even), followed by the unit's letter.
pub open spec fn scaled_text(bytes: u64, unit: u64, letter: char) -> Seq<char> {
    tenths_text(round_half_even(10 * nearest_double(bytes as nat), unit as nat)) + seq![letter]
}

/// The text shown for a byte count: gibibytes, mebibytes or kibibytes with
/// one decimal place once the count reaches that unit, else whole bytes.
pub open spec fn bytes_text(bytes: u64) -> Seq<char> {
    if bytes >= GIB {
        scaled_text(bytes, GIB, 'G')
    } else if bytes >= MIB {
        scaled_text(bytes, MIB, 'M')
    } else if bytes >= KIB {
        scaled_text(bytes, KIB, 'K')
    } else {
        decimal(bytes as nat) + seq!['B']
    }
}

/// Writes a byte count as the monitor shows it: `512B`, `1.5K`, `20.0M`,
/// `3.2G`.
pub fn fmt_bytes(bytes: u64) -> (res: String)
    ensures
        res@ == bytes_text(bytes),
{
    let mut s = String::new();
    if bytes < KIB {
        append_decimal(&mut s, bytes as u128);
        proof { reveal_strlit("B"); }
        s.append("B");
        return s;
    }
    let unit: u64;
    let letter: &'static str;
    if bytes >= GIB {
        unit = GIB;
        letter = "G";
        proof { reveal_strlit("G"); }
    } else if bytes >= MIB {
        unit = MIB;
        letter = "M";
        proof { reveal_strlit("M"); }
    } else {
        unit = KIB;
        letter = "K";
        proof { reveal_strlit("K"); }
    }
    let v = nearest_double_exec(bytes);
    let t = round_half_even_exec(10 * v, unit as u128);
    append_decimal(&mut s, t / 10);
    proof { reveal_strlit("."); }
    s.append(".");
    s.append(digit_text(t % 10));
    s.append(letter);
    s
}

/// `s` is a numeral, a point, one digit and then `letter`, as in `488.3K`.
pub open spec fn tenths_form(s: Seq<char>, letter: char) -> bool {
    &&& s.len() >= 4
    &&& is_numeral(s.take(s.len() - 3))
    &&& s[s.len() - 3] == '.'
    &&& is_digit(s[s.len() - 2])
    &&& s.last() == letter
}

/// The number of tenths that a text in `tenths_form` stands for.
pub open spec fn tenths_read(s: Seq<char>) -> int {
    read_decimal(s.take(s.len() - 3)) * 10 + digit_value(s[s.len() - 2])
}

proof fn lemma_scaled_text_reads(bytes: u64, unit: u64, letter: char)
    requires
        unit > 0,
    ensures
        tenths_form(scaled_text(bytes, unit, letter), letter),
        tenths_read(scaled_text(bytes, unit, letter)) == round_half_even(
            10 * nearest_double(bytes as nat),
            unit as nat,
        ),
{
    let t = round_half_even(10 * nearest_double(bytes as nat), unit as nat);
    let s = scaled_text(bytes, unit, letter);
    lemma_decimal_reads_back(t / 10);
    lemma_digit_char(t % 10);
    assert(s.take(s.len() - 3) =~= decimal(t / 10));
    assert(s[s.len() - 2] == crate::text::digit_char(t % 10));
}

/// The text of a byte count says how many bytes it is: below 1 KiB the
/// count itself followed by `B`; from 1 KiB, 1 MiB and 1 GiB on, the count
/// in that unit as tenths, followed by `K`, `M` or `G`, within half a tenth
/// of `bytes / unit` (for counts of 2^53 bytes and more, within another
/// 1024 bytes, the spacing of the floating-point figure the count is shown
/// through). A count exactly halfway between two tenths is shown with
/// the even one.
pub proof fn lemma_bytes_text_value(bytes: u64)
    ensures
        ({
            let s = bytes_text(bytes);
            bytes < 1024 ==> {
                &&& s.len() >= 2
                &&& is_numeral(s.drop_last())
                &&& s.last() == 'B'
                &&& read_decimal(s.drop_last()) == bytes
            }
        }),
        ({
            let s = bytes_text(bytes);
            1024 <= bytes < 1048576 ==> {
                &&& tenths_form(s, 'K')
                &&& -1024 <= 2 * (1024 * tenths_read(s) - 10 * bytes) <= 1024
                &&& (2 * (1024 * tenths_read(s) - 10 * bytes) == 1024 || 2 * (1024 * tenths_read(s)
                    - 10 * bytes) == -1024) ==> tenths_read(s) % 2 == 0
            }
        }),
        ({
            let s = bytes_text(bytes);
            1048576 <= bytes < 1073741824 ==> {
                &&& tenths_form(s, 'M')
                &&& -1048576 <= 2 * (1048576 * tenths_read(s) - 10 * bytes) <= 1048576
                &&& (2 * (1048576 * tenths_read(s) - 10 * bytes) == 1048576 || 2 * (1048576
                    * tenths_read(s) - 10 * bytes) == -1048576) ==> tenths_read(s) % 2 == 0
            }
        }),
        ({
            let s = bytes_text(bytes);
            1073741824 <= bytes ==> {
                &&& tenths_form(s, 'G')
                &&& -(1073741824 + 20480) <= 2 * (1073741824 * tenths_read(s) - 10 * bytes)
                    <= 1073741824 + 20480
                &&& bytes < 0x20_0000_0000_0000 ==> -1073741824 <= 2 * (1073741824 * tenths_read(s)
                    - 10 * bytes) <= 1073741824
                &&& (bytes < 0x20_0000_0000_0000 && (2 * (1073741824 * tenths_read(s) - 10 * bytes)
                    == 1073741824 || 2 * (1073741824 * tenths_read(s) - 10 * bytes) == -1073741824))
                    ==> tenths_read(s) % 2 == 0
            }
        }),
{
    let s = bytes_text(bytes);
    lemma_nearest_double_close(bytes);
    let v = nearest_double(bytes as nat);
    if bytes < 1024 {
        lemma_decimal_reads_back(bytes as nat);
        assert(s.drop_last() =~= decimal(bytes as nat));
    } else {
        let unit: u64 = if bytes >= GIB {
            GIB
        } else if bytes >= MIB {
            MIB
        } else {
            KIB
        };
        let letter = if bytes >= GIB {
            'G'
        } else if bytes >= MIB {
            'M'
        } else {
            'K'
        };
        lemma_scaled_text_reads(bytes, unit, letter);
        lemma_round_half_even_close(10 * v, unit as nat);
    }
}

/// Position of `tab` in the tab bar.
pub open spec fn tab_position(tab: Tab) -> nat {
    match tab {
        Tab::Overview => 0,
        Tab::Processes => 1,
    }
}

/// The tab bar lists the overview first and the processes second.
pub proof fn lemma_tab_positions()
    ensures
        tab_position(Tab::Overview) == 0,
        tab_position(Tab::Processes) == 1,
{
}

/// The tab bar entry to highlight for `tab`.
pub fn tab_index(tab: Tab) -> (i: usize)
    ensures
        i == tab_position(tab),
{
    match tab {
        Tab::Overview => 0,
        Tab::Processes => 1,
    }
}

/// The name of an ordering as the help bar shows it.
pub open spec fn sort_name(by: SortBy) -> Seq<char> {
    match by {
        SortBy::Cpu => seq!['C', 'P', 'U'],
        SortBy::Memory => seq!['M', 'E', 'M'],
        SortBy::Pid => seq!['P', 'I', 'D'],
        SortBy::Name => seq!['N', 'A', 'M', 'E'],
    }
}

/// The help bar names the orderings `CPU`, `MEM`, `PID` and `NAME`.
pub proof fn lemma_sort_names()
    ensures
        sort_name(SortBy::Cpu) == seq!['C', 'P', 'U'],
        sort_name(SortBy::Memory) == seq!['M', 'E', 'M'],
        sort_name(SortBy::Pid) == seq!['P', 'I', 'D'],
        sort_name(SortBy::Name) == seq!['N', 'A', 'M', 'E'],
{
}

/// The name of the ordering `by` for the help bar.
pub fn sort_label(by: SortBy) -> (label: &'static str)
    ensures
        label@ == sort_name(by),
{
    match by {
        SortBy::Cpu => {
            proof { reveal_strlit("CPU"); }
            "CPU"
        },
        SortBy::Memory => {
            proof { reveal_strlit("MEM"); }
            "MEM"
        },
        SortBy::Pid => {
            proof { reveal_strlit("PID"); }
            "PID"
        },
        SortBy::Name => {
            proof { reveal_strlit("NAME"); }
            "NAME"
        },
    }
}

/// The column of the process table that ordering `by` sorts on.
pub open spec fn column_of(by: SortBy) -> int {
    match by {
        SortBy::Pid => 0,
        SortBy::Name => 1,
        SortBy::Cpu => 2,
        SortBy::Memory => 3,
    }
}

/// The titles of the process table's columns.
pub open spec fn column_title(col: int) -> Seq<char> {
    if col == 0 {
        seq!['P', 'I', 'D']
    } else if col == 1 {
        seq!['N', 'A', 'M', 'E']
    } else if col == 2 {
        seq!['C', 'P', 'U', '%']
    } else {
        seq!['M', 'E', 'M', ' ', '(', 'M', 'B', ')']
    }
}

/// A column's header: its title, followed by a downward triangle on the
/// column the table is ordered by.
pub open spec fn header_text(col: int, by: SortBy) -> Seq<char> {
    if column_of(by) == col {
        column_title(col) + seq![' ', '\u{25BC}']
    } else {
        column_title(col)
    }
}

/// The process table's columns are `PID`, `NAME`, `CPU%` and `MEM (MB)`,
/// in that order, and exactly the column the table is ordered by carries
/// the marker ` \u{25BC}`.
pub proof fn lemma_headers(by: SortBy)
    ensures
        header_text(0, by) == seq!['P', 'I', 'D'] + if by == SortBy::Pid {
            seq![' ', '\u{25BC}']
        } else {
            Seq::<char>::empty()
        },
        header_text(1, by) == seq!['N', 'A', 'M', 'E'] + if by == SortBy::Name {
            seq![' ', '\u{25BC}']
        } else {
            Seq::<char>::empty()
        },
        header_text(2, by) == seq!['C', 'P', 'U', '%'] + if by == SortBy::Cpu {
            seq![' ', '\u{25BC}']
        } else {
            Seq::<char>::empty()
        },
        header_text(3, by) == seq!['M', 'E', 'M', ' ', '(', 'M', 'B', ')'] + if by
            == SortBy::Memory {
            seq![' ', '\u{25BC}']
        } else {
            Seq::<char>::empty()
        },
{
    assert(seq!['P', 'I', 'D'] + Seq::<char>::empty() =~= seq!['P', 'I', 'D']);
    assert(seq!['N', 'A', 'M', 'E'] + Seq::<char>::empty() =~= seq!['N', 'A', 'M', 'E']);
    assert(seq!['C', 'P', 'U', '%'] + Seq::<char>::empty() =~= seq!['C', 'P', 'U', '%']);
    assert(seq!['M', 'E', 'M', ' ', '(', 'M', 'B', ')'] + Seq::<char>::empty() =~= seq![
        'M',
        'E',
        'M',
        ' ',
        '(',
        'M',
        'B',
        ')',
    ]);
}

fn header_cell(title: &str, marked: bool) -> (cell: String)
    ensures
        cell@ == if marked {
            title@ + seq![' ', '\u{25BC}']
        } else {
            title@
        },
{
    let mut cell = String::from_str(title);
    if marked {
        proof { reveal_strlit(" \u{25BC}"); }
        cell.append(" \u{25BC}");
    }
    cell
}

/// The four headers of the process table (pid, name, CPU, memory), with
/// the ordering column marked.
pub fn header_cells(by: SortBy) -> (cells: Vec<String>)
    ensures
        cells@.len() == 4,
        forall|col: int| 0 <= col < 4 ==> #[trigger] cells@[col]@ == header_text(col, by),
{
    proof {
        reveal_strlit("PID");
        reveal_strlit("NAME");
        reveal_strlit("CPU%");
        reveal_strlit("MEM (MB)");
    }
    let mut cells: Vec<String> = Vec::new();
    cells.push(header_cell("PID", by == SortBy::Pid));
    cells.push(header_cell("NAME", by == SortBy::Name));
    cells.push(header_cell("CPU%", by == SortBy::Cpu));
    cells.push(header_cell("MEM (MB)", by == SortBy::Memory));
    cells
}

/// Rows of the process table that fit in a panel `height` rows tall,
/// after its two borders and its header.
pub open spec fn visible_rows(height: u16) -> nat {
    if height >= 3 {
        (height - 3) as nat
    } else {
        0
    }
}

/// The first row shown: the requested scroll offset, held back so that
/// the last page is never left partly empty.
pub open spec fn first_shown(scroll: usize, len: usize, height: u16) -> nat {
    let last_start = if len >= visible_rows(height) {
        (len - visible_rows(height)) as nat
    } else {
        0
    };
    if scroll <= last_start {
        scroll as nat
    } else {
        last_start
    }
}

/// The rows `[first, end)` of a table of `len` rows that a panel `height`
/// rows tall shows at scroll offset `scroll`.
pub fn process_window(scroll: usize, len: usize, height: u16) -> (window: (usize, usize))
    ensures
        window.0 == first_shown(scroll, len, height),
        window.1 == window_end(scroll, len, height),
{
    let rows = height.saturating_sub(3) as usize;
    let first = if scroll <= len.saturating_sub(rows) {
        scroll
    } else {
        len.saturating_sub(rows)
    };
    let end = if rows <= len - first {
        first + rows
    } else {
        len
    };
    (first, end)
}

/// The end of the window that `process_window` returns.
pub open spec fn window_end(scroll: usize, len: usize, height: u16) -> int {
    if first_shown(scroll, len, height) + visible_rows(height) <= len {
        (first_shown(scroll, len, height) + visible_rows(height)) as int
    } else {
        len as int
    }
}

/// A panel `height` rows tall shows `height - 3` rows of the table (its
/// borders and header take three), or the whole table when it is
/// shorter. The window starts at the scroll offset when a full window
/// fits from there, and otherwise ends at the last row; it never starts
/// past the offset or ends past the table.
pub proof fn lemma_window_full(scroll: usize, len: usize, height: u16)
    ensures
        ({
            let rows: int = if height >= 3 { height - 3 } else { 0 };
            let first = first_shown(scroll, len, height);
            let end = window_end(scroll, len, height);
            &&& end - first == if rows <= len { rows } else { len as int }
            &&& 0 <= first <= scroll
            &&& end <= len
            &&& scroll + rows <= len ==> first == scroll
            &&& scroll + rows > len ==> end == len
        }),
{
}

/// The top of the disk and network charts: the largest sample of either
/// history, and at least 1.
pub fn history_peak(a: &Vec<u64>, b: &Vec<u64>) -> (peak: u64)
    ensures
        peak >= 1,
        forall|i: int| 0 <= i < a@.len() ==> a@[i] <= peak,
        forall|i: int| 0 <= i < b@.len() ==> b@[i] <= peak,
        peak == 1 || a@.contains(peak) || b@.contains(peak),
{
    let mut peak: u64 = 1;
    let mut i: usize = 0;
    while i < a.len()
        invariant
            i <= a@.len(),
            peak >= 1,
            forall|k: int| 0 <= k < i ==> a@[k] <= peak,
            peak == 1 || a@.contains(peak),
        decreases a@.len() - i,
    {
        if a[i] > peak {
            peak = a[i];
        }
        i = i + 1;
    }
    let mut j: usize = 0;
    while j < b.len()
        invariant
            j <= b@.len(),
            peak >= 1,
            forall|k: int| 0 <= k < a@.len() ==> a@[k] <= peak,
            forall|k: int| 0 <= k < j ==> b@[k] <= peak,
            peak == 1 || a@.contains(peak) || b@.contains(peak),
        decreases b@.len() - j,
    {
        if b[j] > peak {
            peak = b[j];
        }
        j = j + 1;
    }
    peak
}

} // verus!
