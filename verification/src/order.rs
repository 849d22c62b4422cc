use vstd::prelude::*;
use crate::app::{ProcessInfo, SortBy};
use vstd::std_specs::iter::IteratorSpec;

verus! {

/// Lexicographic order on character sequences: `a` comes strictly before `b`.
pub open spec fn lex_lt(a: Seq<char>, b: Seq<char>) -> bool
    decreases a.len(),
{
    if a.len() == 0 {
        b.len() > 0
    } else if b.len() == 0 {
        false
    } else if a[0] != b[0] {
        (a[0] as int) < (b[0] as int)
    } else {
        lex_lt(a.drop_first(), b.drop_first())
    }
}

pub proof fn lemma_lex_asymmetric(a: Seq<char>, b: Seq<char>)
    requires
        lex_lt(a, b),
    ensures
        !lex_lt(b, a),
    decreases a.len(),
{
    if a.len() > 0 && b.len() > 0 && a[0] == b[0] {
        lemma_lex_asymmetric(a.drop_first(), b.drop_first());
    }
}

pub proof fn lemma_lex_transitive(a: Seq<char>, b: Seq<char>, c: Seq<char>)
    requires
        lex_lt(a, b),
        lex_lt(b, c),
    ensures
        lex_lt(a, c),
    decreases a.len(),
{
    if a.len() > 0 && b.len() > 0 && c.len() > 0 && a[0] == b[0] && b[0] == c[0] {
        lemma_lex_transitive(a.drop_first(), b.drop_first(), c.drop_first());
    }
}

pub proof fn lemma_lex_total(a: Seq<char>, b: Seq<char>)
    ensures
        lex_lt(a, b) || lex_lt(b, a) || a == b,
    decreases a.len(),
{
    if a.len() > 0 && b.len() > 0 && a[0] == b[0] {
        lemma_lex_total(a.drop_first(), b.drop_first());
        if a.drop_first() == b.drop_first() {
            assert(a =~= seq![a[0]] + a.drop_first());
            assert(b =~= seq![b[0]] + b.drop_first());
        }
    } else if a.len() == 0 && b.len() == 0 {
        assert(a =~= b);
    }
}

/// Where the usage figure with bit pattern `bits` (an IEEE-754 single)
/// stands in numeric order: both zeros share one place, negative figures
/// come below it and positive ones above, each by magnitude.
pub open spec fn cpu_rank(bits: u32) -> int {
    if bits < 0x8000_0000 {
        0x8000_0000 + bits
    } else {
        0x8000_0000 - (bits - 0x8000_0000)
    }
}

/// The magnitude that the low 31 bits `m` of a single-precision pattern
/// encode, in units of 2^-149 (the smallest subnormal number): with
/// exponent field `e = m / 2^23` and fraction field `f = m % 2^23`, it is
/// `f` when `e` is 0 and `(2^23 + f) * 2^(e - 1)` otherwise.
pub open spec fn scaled_magnitude(m: int) -> int {
    let e = m / 0x80_0000;
    let f = m % 0x80_0000;
    if e == 0 {
        f
    } else {
        (0x80_0000 + f) * vstd::arithmetic::power2::pow2((e - 1) as nat)
    }
}

/// `bits` encodes a finite single-precision number (its exponent field is
/// not all ones, which would mean an infinity or NaN).
pub open spec fn f32_finite(bits: u32) -> bool {
    (bits % 0x8000_0000) / 0x80_0000 < 255
}

/// The number that `bits` encodes, in units of 2^-149: its magnitude,
/// negated when the sign bit is set.
pub open spec fn f32_scaled(bits: u32) -> int {
    if bits >= 0x8000_0000 {
        -scaled_magnitude((bits % 0x8000_0000) as int)
    } else {
        scaled_magnitude((bits % 0x8000_0000) as int)
    }
}

/// A larger finite bit pattern (sign bit aside) encodes a larger magnitude.
proof fn lemma_magnitude_increasing(m1: int, m2: int)
    requires
        0 <= m1 < m2,
        m2 / 0x80_0000 < 255,
    ensures
        0 <= scaled_magnitude(m1) < scaled_magnitude(m2),
{
    let e1 = m1 / 0x80_0000;
    let f1 = m1 % 0x80_0000;
    let e2 = m2 / 0x80_0000;
    let f2 = m2 % 0x80_0000;
    assert(e1 <= e2);
    if e1 > 0 {
        vstd::arithmetic::power2::lemma_pow2_pos((e1 - 1) as nat);
    }
    if e2 > 0 {
        vstd::arithmetic::power2::lemma_pow2_pos((e2 - 1) as nat);
    }
    if e1 == e2 {
        assert(f1 < f2);
        if e1 > 0 {
            let p = vstd::arithmetic::power2::pow2((e1 - 1) as nat) as int;
            assert((0x80_0000 + f1) * p < (0x80_0000 + f2) * p) by (nonlinear_arith)
                requires
                    f1 < f2,
                    p > 0,
            ;
        }
    } else {
        // every magnitude with exponent field e1 lies below 2^23 * 2^e1,
        // and every one with exponent field e2 > e1 lies at or above it
        let bound = 0x80_0000 * vstd::arithmetic::power2::pow2(e1 as nat);
        vstd::arithmetic::power2::lemma_pow2_pos(e1 as nat);
        if e1 == 0 {
            vstd::arithmetic::power2::lemma2_to64();
            assert(scaled_magnitude(m1) < bound);
        } else {
            let p = vstd::arithmetic::power2::pow2((e1 - 1) as nat) as int;
            vstd::arithmetic::power2::lemma_pow2_unfold(e1 as nat);
            assert((0x80_0000 + f1) * p < 0x80_0000 * (2 * p)) by (nonlinear_arith)
                requires
                    0 <= f1 < 0x80_0000,
                    p > 0,
            ;
            assert(scaled_magnitude(m1) < bound);
        }
        let p2 = vstd::arithmetic::power2::pow2((e2 - 1) as nat) as int;
        if (e2 - 1) as nat > e1 as nat {
            vstd::arithmetic::power2::lemma_pow2_strictly_increases(e1 as nat, (e2 - 1) as nat);
        }
        assert(vstd::arithmetic::power2::pow2(e1 as nat) <= p2);
        assert(0x80_0000 * vstd::arithmetic::power2::pow2(e1 as nat) <= (0x80_0000 + f2) * p2)
            by (nonlinear_arith)
            requires
                vstd::arithmetic::power2::pow2(e1 as nat) <= p2,
                0 <= f2,
        ;
    }
}

/// `cpu_rank` orders usage figures as the numbers they encode: for any two
/// finite single-precision patterns, one ranks below the other exactly
/// when it encodes the smaller number, and they rank equal exactly when
/// they encode the same number (so `0.0` and `-0.0` rank equal).
pub proof fn lemma_cpu_rank_follows_value(a: u32, b: u32)
    requires
        f32_finite(a),
        f32_finite(b),
    ensures
        cpu_rank(a) < cpu_rank(b) <==> f32_scaled(a) < f32_scaled(b),
        cpu_rank(a) == cpu_rank(b) <==> f32_scaled(a) == f32_scaled(b),
{
    let ma = (a % 0x8000_0000) as int;
    let mb = (b % 0x8000_0000) as int;
    assert(scaled_magnitude(0) == 0);
    if ma < mb {
        lemma_magnitude_increasing(ma, mb);
    } else if mb < ma {
        lemma_magnitude_increasing(mb, ma);
    }
    if ma > 0 {
        lemma_magnitude_increasing(0, ma);
    }
    if mb > 0 {
        lemma_magnitude_increasing(0, mb);
    }
}

/// Ordered by CPU, a process comes strictly before another exactly when
/// its usage figure is the larger number (for finite figures).
pub proof fn lemma_cpu_order_is_descending_usage(a: ProcessInfo, b: ProcessInfo)
    requires
        f32_finite(a.cpu),
        f32_finite(b.cpu),
    ensures
        precedes(a, b, SortBy::Cpu) <==> f32_scaled(a.cpu) > f32_scaled(b.cpu),
{
    lemma_cpu_rank_follows_value(b.cpu, a.cpu);
}

/// The numeric place of a usage figure, see `cpu_rank`.
pub fn cpu_key(bits: u32) -> (key: u64)
    ensures
        key == cpu_rank(bits),
{
    if bits < 0x8000_0000 {
        0x8000_0000u64 + bits as u64
    } else {
        0x8000_0000u64 - (bits as u64 - 0x8000_0000u64)
    }
}

/// `a` comes before `b` in dictionary order: at the first position where
/// they differ, `a` has the smaller character, or `a` is a proper prefix
/// of `b`.
pub proof fn lemma_lex_meaning(a: Seq<char>, b: Seq<char>)
    ensures
        lex_lt(a, b) <==> exists|k: int|
            0 <= k <= a.len() && k <= b.len() && #[trigger] a.take(k) == b.take(k) && ((k == a.len()
                && k < b.len()) || (k < a.len() && k < b.len() && (a[k] as int) < (b[k] as int))),
    decreases a.len(),
{
    if a.len() == 0 {
        if b.len() > 0 {
            assert(a.take(0) =~= b.take(0));
        }
    } else if b.len() == 0 {
    } else if a[0] != b[0] {
        if (a[0] as int) < (b[0] as int) {
            assert(a.take(0) =~= b.take(0));
        }
        if exists|k: int|
            0 <= k <= a.len() && k <= b.len() && #[trigger] a.take(k) == b.take(k) && ((k
                == a.len() && k < b.len()) || (k < a.len() && k < b.len() && (a[k] as int) < (
            b[k] as int))) {
            let k = choose|k: int|
                0 <= k <= a.len() && k <= b.len() && #[trigger] a.take(k) == b.take(k) && ((k
                    == a.len() && k < b.len()) || (k < a.len() && k < b.len() && (a[k] as int)
                    < (b[k] as int)));
            if k > 0 {
                assert(a.take(k)[0] == b.take(k)[0]);
            }
        }
    } else {
        let a1 = a.drop_first();
        let b1 = b.drop_first();
        lemma_lex_meaning(a1, b1);
        if lex_lt(a1, b1) {
            let k = choose|k: int|
                0 <= k <= a1.len() && k <= b1.len() && #[trigger] a1.take(k) == b1.take(k) && ((k
                    == a1.len() && k < b1.len()) || (k < a1.len() && k < b1.len() && (a1[k] as int)
                    < (b1[k] as int)));
            assert(a.take(k + 1) =~= seq![a[0]] + a1.take(k));
            assert(b.take(k + 1) =~= seq![b[0]] + b1.take(k));
        }
        if exists|k: int|
            0 <= k <= a.len() && k <= b.len() && #[trigger] a.take(k) == b.take(k) && ((k
                == a.len() && k < b.len()) || (k < a.len() && k < b.len() && (a[k] as int) < (
            b[k] as int))) {
            let k = choose|k: int|
                0 <= k <= a.len() && k <= b.len() && #[trigger] a.take(k) == b.take(k) && ((k
                    == a.len() && k < b.len()) || (k < a.len() && k < b.len() && (a[k] as int)
                    < (b[k] as int)));
            assert(k >= 1);
            assert(a1.take(k - 1) =~= a.take(k).drop_first());
            assert(b1.take(k - 1) =~= b.take(k).drop_first());
        }
    }
}

/// Under `by`, process `a` is placed strictly before process `b`: higher
/// usage first for CPU and memory, lower pid first, names in
/// lexicographic order.
pub open spec fn precedes(a: ProcessInfo, b: ProcessInfo, by: SortBy) -> bool {
    match by {
        SortBy::Cpu => cpu_rank(a.cpu) > cpu_rank(b.cpu),
        SortBy::Memory => a.mem_bytes > b.mem_bytes,
        SortBy::Pid => a.pid < b.pid,
        SortBy::Name => lex_lt(a.name@, b.name@),
    }
}

pub proof fn lemma_precedes_asymmetric(a: ProcessInfo, b: ProcessInfo, by: SortBy)
    requires
        precedes(a, b, by),
    ensures
        !precedes(b, a, by),
{
    if by == SortBy::Name {
        lemma_lex_asymmetric(a.name@, b.name@);
    }
}

/// Not being placed before is transitive.
pub proof fn lemma_not_precedes_transitive(a: ProcessInfo, b: ProcessInfo, c: ProcessInfo, by: SortBy)
    requires
        !precedes(a, b, by),
        !precedes(b, c, by),
    ensures
        !precedes(a, c, by),
{
    if by == SortBy::Name {
        if lex_lt(a.name@, c.name@) {
            lemma_lex_total(a.name@, b.name@);
            if lex_lt(b.name@, a.name@) {
                lemma_lex_transitive(b.name@, a.name@, c.name@);
            }
        }
    }
}

/// `s` is ordered under `by`: no element is placed strictly before one
/// that comes earlier.
pub open spec fn sorted_by(s: Seq<ProcessInfo>, by: SortBy) -> bool {
    forall|i: int, j: int| 0 <= i < j < s.len() ==> !precedes(#[trigger] s[j], #[trigger] s[i], by)
}

/// `perm` witnesses that `output` is `input` rearranged (`output[i]` is
/// `input[perm[i]]`, each input position used once) and that two elements
/// change their relative order only when `by` places them strictly apart.
pub open spec fn stable_arrangement(
    input: Seq<ProcessInfo>,
    output: Seq<ProcessInfo>,
    perm: Seq<int>,
    by: SortBy,
) -> bool {
    &&& output.len() == input.len()
    &&& perm.len() == input.len()
    &&& forall|i: int| 0 <= i < perm.len() ==> 0 <= #[trigger] perm[i] < input.len()
    &&& forall|i: int, j: int| 0 <= i < j < perm.len() ==> #[trigger] perm[i] != #[trigger] perm[j]
    &&& forall|i: int| 0 <= i < output.len() ==> #[trigger] output[i] == input[perm[i]]
    &&& forall|i: int, j: int|
        0 <= i < j < output.len() && #[trigger] perm[i] > #[trigger] perm[j] ==> precedes(
            output[i],
            output[j],
            by,
        )
}

/// `output` is the stable sort of `input` under `by`.
pub open spec fn stably_sorted(input: Seq<ProcessInfo>, output: Seq<ProcessInfo>, by: SortBy) -> bool {
    &&& sorted_by(output, by)
    &&& exists|perm: Seq<int>| stable_arrangement(input, output, perm, by)
}

/// The order in which a stable sort places input positions `a` and `b`:
/// by `by` first, by position where `by` does not tell them apart.
pub open spec fn position_before(input: Seq<ProcessInfo>, by: SortBy, a: int, b: int) -> bool {
    ||| precedes(input[a], input[b], by)
    ||| (!precedes(input[b], input[a], by) && a < b)
}

proof fn lemma_position_before_asymmetric(input: Seq<ProcessInfo>, by: SortBy, a: int, b: int)
    requires
        position_before(input, by, a, b),
    ensures
        !position_before(input, by, b, a),
{
    if precedes(input[a], input[b], by) {
        lemma_precedes_asymmetric(input[a], input[b], by);
    }
}

/// Every input position appears in a stable arrangement.
proof fn lemma_arrangement_onto(
    input: Seq<ProcessInfo>,
    output: Seq<ProcessInfo>,
    perm: Seq<int>,
    by: SortBy,
)
    requires
        stable_arrangement(input, output, perm, by),
    ensures
        forall|a: int| 0 <= a < input.len() ==> #[trigger] perm.contains(a),
{
    let n = input.len() as int;
    assert(perm.no_duplicates()) by {
        assert forall|i: int, j: int|
            0 <= i < perm.len() && 0 <= j < perm.len() && i != j implies perm[i] != perm[j] by {
            if i < j {
                assert(perm[i] != perm[j]);
            } else {
                assert(perm[j] != perm[i]);
            }
        }
    }
    perm.unique_seq_to_set();
    vstd::set_lib::lemma_int_range(0, n);
    assert(perm.to_set().subset_of(vstd::set_lib::set_int_range(0, n)));
    vstd::set_lib::lemma_subset_equality(perm.to_set(), vstd::set_lib::set_int_range(0, n));
    assert forall|a: int| 0 <= a < input.len() implies #[trigger] perm.contains(a) by {
        assert(vstd::set_lib::set_int_range(0, n).contains(a));
        assert(perm.to_set().contains(a));
    }
}

/// A stable arrangement of a sorted output lists the input positions in
/// `position_before` order.
proof fn lemma_arrangement_increasing(
    input: Seq<ProcessInfo>,
    output: Seq<ProcessInfo>,
    perm: Seq<int>,
    by: SortBy,
)
    requires
        sorted_by(output, by),
        stable_arrangement(input, output, perm, by),
    ensures
        forall|i: int, j: int|
            0 <= i < j < perm.len() ==> position_before(input, by, #[trigger] perm[i], #[trigger] perm[j]),
{
    assert forall|i: int, j: int| 0 <= i < j < perm.len() implies position_before(
        input,
        by,
        #[trigger] perm[i],
        #[trigger] perm[j],
    ) by {
        assert(!precedes(output[j], output[i], by));
        assert(output[i] == input[perm[i]]);
        assert(output[j] == input[perm[j]]);
        if !precedes(output[i], output[j], by) {
            assert(!(perm[i] > perm[j]));
            assert(perm[i] != perm[j]);
        }
    }
}

proof fn lemma_same_positions(
    input: Seq<ProcessInfo>,
    o1: Seq<ProcessInfo>,
    o2: Seq<ProcessInfo>,
    p1: Seq<int>,
    p2: Seq<int>,
    by: SortBy,
    k: int,
)
    requires
        sorted_by(o1, by),
        sorted_by(o2, by),
        stable_arrangement(input, o1, p1, by),
        stable_arrangement(input, o2, p2, by),
        0 <= k <= input.len(),
    ensures
        forall|i: int| 0 <= i < k ==> #[trigger] p1[i] == p2[i],
    decreases k,
{
    if k > 0 {
        lemma_same_positions(input, o1, o2, p1, p2, by, k - 1);
        lemma_arrangement_onto(input, o1, p1, by);
        lemma_arrangement_onto(input, o2, p2, by);
        lemma_arrangement_increasing(input, o1, p1, by);
        lemma_arrangement_increasing(input, o2, p2, by);
        let a = p1[k - 1];
        let b = p2[k - 1];
        if a != b {
            assert(p1.contains(b));
            let m = choose|m: int| 0 <= m < p1.len() && p1[m] == b;
            assert(p2.contains(a));
            let m2 = choose|m: int| 0 <= m < p2.len() && p2[m] == a;
            if m < k - 1 {
                assert(p2[m] == b);
            }
            if m2 < k - 1 {
                assert(p1[m2] == a);
            }
            assert(position_before(input, by, p1[k - 1], p1[m]));
            assert(position_before(input, by, p2[k - 1], p2[m2]));
            lemma_position_before_asymmetric(input, by, a, b);
        }
    }
}

/// A stable sort has only one possible result: two outputs that are both
/// the stable sort of the same input under the same ordering are equal.
pub proof fn lemma_stable_sort_unique(
    input: Seq<ProcessInfo>,
    o1: Seq<ProcessInfo>,
    o2: Seq<ProcessInfo>,
    by: SortBy,
)
    requires
        stably_sorted(input, o1, by),
        stably_sorted(input, o2, by),
    ensures
        o1 == o2,
{
    let p1 = choose|p: Seq<int>| stable_arrangement(input, o1, p, by);
    let p2 = choose|p: Seq<int>| stable_arrangement(input, o2, p, by);
    lemma_same_positions(input, o1, o2, p1, p2, by, input.len() as int);
    assert forall|i: int| 0 <= i < o1.len() implies o1[i] == o2[i] by {
        assert(o1[i] == input[p1[i]]);
        assert(o2[i] == input[p2[i]]);
    }
    assert(o1 =~= o2);
}

/// A stable sort keeps exactly the rows it was given, each as often as it
/// occurred.
pub proof fn lemma_stable_arrangement_same_items(
    input: Seq<ProcessInfo>,
    output: Seq<ProcessInfo>,
    by: SortBy,
)
    requires
        stably_sorted(input, output, by),
    ensures
        output.to_multiset() == input.to_multiset(),
{
    let perm = choose|p: Seq<int>| stable_arrangement(input, output, p, by);
    lemma_arrangement_onto(input, output, perm, by);
    lemma_permuted_multiset(input, output, perm);
}

/// Rearranging a sequence by a permutation keeps its multiset of items.
proof fn lemma_permuted_multiset(input: Seq<ProcessInfo>, output: Seq<ProcessInfo>, perm: Seq<int>)
    requires
        output.len() == input.len(),
        perm.len() == input.len(),
        forall|i: int| 0 <= i < perm.len() ==> 0 <= #[trigger] perm[i] < input.len(),
        forall|i: int, j: int| 0 <= i < j < perm.len() ==> #[trigger] perm[i] != #[trigger] perm[j],
        forall|i: int| 0 <= i < output.len() ==> #[trigger] output[i] == input[perm[i]],
        forall|a: int| 0 <= a < input.len() ==> #[trigger] perm.contains(a),
    ensures
        output.to_multiset() == input.to_multiset(),
    decreases input.len(),
{
    broadcast use vstd::seq_lib::group_to_multiset_ensures;

    let n = input.len() as int;
    if n == 0 {
        assert(output =~= input);
    } else {
        // remove the last input item and where it landed in the output
        assert(perm.contains(n - 1));
        let m = choose|m: int| 0 <= m < perm.len() && perm[m] == n - 1;
        let out2 = output.remove(m);
        let perm2 = perm.remove(m);
        let in2 = input.drop_last();
        assert forall|i: int| 0 <= i < perm2.len() implies 0 <= #[trigger] perm2[i] < in2.len() by {
            if i < m {
                assert(perm2[i] == perm[i]);
                assert(perm[i] != perm[m]);
            } else {
                assert(perm2[i] == perm[i + 1]);
                assert(perm[m] != perm[i + 1]);
            }
        }
        assert forall|i: int, j: int| 0 <= i < j < perm2.len() implies #[trigger] perm2[i]
            != #[trigger] perm2[j] by {
            let ii = if i < m { i } else { i + 1 };
            let jj = if j < m { j } else { j + 1 };
            assert(perm2[i] == perm[ii] && perm2[j] == perm[jj]);
        }
        assert forall|i: int| 0 <= i < out2.len() implies #[trigger] out2[i] == in2[perm2[i]] by {
            let ii = if i < m { i } else { i + 1 };
            assert(out2[i] == output[ii] && perm2[i] == perm[ii]);
        }
        assert forall|a: int| 0 <= a < in2.len() implies #[trigger] perm2.contains(a) by {
            assert(perm.contains(a));
            let k = choose|k: int| 0 <= k < perm.len() && perm[k] == a;
            assert(k != m);
            if k < m {
                assert(perm2[k] == a);
            } else {
                assert(perm2[k - 1] == a);
            }
        }
        lemma_permuted_multiset(in2, out2, perm2);
        assert(output[m] == input[n - 1]);
        assert(input =~= in2.push(input[n - 1]));
        vstd::seq_lib::to_multiset_remove(output, m);
        assert(output.to_multiset() == out2.to_multiset().insert(output[m]));
        assert(input.to_multiset() == in2.to_multiset().insert(input[n - 1]));
    }
}

/// Sorting a table that is already in order leaves it as it is.
pub proof fn lemma_sorted_is_fixed(s: Seq<ProcessInfo>, out: Seq<ProcessInfo>, by: SortBy)
    requires
        sorted_by(s, by),
        stably_sorted(s, out, by),
    ensures
        out == s,
{
    let id = Seq::new(s.len(), |i: int| i);
    assert(stable_arrangement(s, s, id, by));
    lemma_stable_sort_unique(s, s, out, by);
}

/// Decides whether `a` is placed strictly before `b` under `by`.
pub fn goes_before(a: &ProcessInfo, b: &ProcessInfo, by: SortBy) -> (res: bool)
    ensures
        res == precedes(*a, *b, by),
{
    match by {
        SortBy::Cpu => cpu_key(a.cpu) > cpu_key(b.cpu),
        SortBy::Memory => a.mem_bytes > b.mem_bytes,
        SortBy::Pid => a.pid < b.pid,
        SortBy::Name => name_before(&a.name, &b.name),
    }
}

/// Decides whether `a` comes strictly before `b` in lexicographic order.
pub fn name_before(a: &String, b: &String) -> (res: bool)
    ensures
        res == lex_lt(a@, b@),
{
    broadcast use vstd::string::group_string_axioms;

    let mut ia = a.as_str().chars();
    let mut ib = b.as_str().chars();
    loop
        invariant
            lex_lt(a@, b@) == lex_lt(ia.remaining(), ib.remaining()),
            ia.decrease() is Some,
        decreases ia.decrease()->0,
    {
        let ghost ra = ia.remaining();
        let ghost rb = ib.remaining();
        let ca = ia.next();
        let cb = ib.next();
        match ca {
            None => {
                return cb.is_some();
            },
            Some(x) => match cb {
                None => {
                    return false;
                },
                Some(y) => {
                    if x != y {
                        return x < y;
                    }
                    assert(ra[0] == x && rb[0] == y);
                },
            },
        }
    }
}

/// What each ordering of the process table means: highest CPU figure
/// first, most memory first, lowest pid first, names in dictionary order.
pub proof fn lemma_precedes_meaning(a: ProcessInfo, b: ProcessInfo)
    ensures
        f32_finite(a.cpu) && f32_finite(b.cpu) ==> (precedes(a, b, SortBy::Cpu) <==> f32_scaled(
            a.cpu,
        ) > f32_scaled(b.cpu)),
        precedes(a, b, SortBy::Memory) <==> a.mem_bytes > b.mem_bytes,
        precedes(a, b, SortBy::Pid) <==> a.pid < b.pid,
        precedes(a, b, SortBy::Name) <==> exists|k: int|
            0 <= k <= a.name@.len() && k <= b.name@.len() && #[trigger] a.name@.take(k)
                == b.name@.take(k) && ((k == a.name@.len() && k < b.name@.len()) || (k
                < a.name@.len() && k < b.name@.len() && (a.name@[k] as int) < (b.name@[k] as int))),
{
    if f32_finite(a.cpu) && f32_finite(b.cpu) {
        lemma_cpu_order_is_descending_usage(a, b);
    }
    lemma_lex_meaning(a.name@, b.name@);
}

/// Being placed before carries over to anything that the later element
/// is not placed after.
pub proof fn lemma_precedes_then_not_precedes(a: ProcessInfo, b: ProcessInfo, c: ProcessInfo, by: SortBy)
    requires
        precedes(a, b, by),
        !precedes(c, b, by),
    ensures
        precedes(a, c, by),
{
    if by == SortBy::Name {
        lemma_lex_total(b.name@, c.name@);
        if lex_lt(b.name@, c.name@) {
            lemma_lex_transitive(a.name@, b.name@, c.name@);
        }
    }
}

/// A table made of two halves, each stably sorted, and then stably sorted
/// as a whole, is the stable sort of the two original halves together.
proof fn lemma_sort_halves(
    li: Seq<ProcessInfo>,
    ri: Seq<ProcessInfo>,
    l: Seq<ProcessInfo>,
    r: Seq<ProcessInfo>,
    out: Seq<ProcessInfo>,
    by: SortBy,
)
    requires
        stably_sorted(li, l, by),
        stably_sorted(ri, r, by),
        stably_sorted(l + r, out, by),
    ensures
        stably_sorted(li + ri, out, by),
{
    let pl = choose|p: Seq<int>| stable_arrangement(li, l, p, by);
    let pr = choose|p: Seq<int>| stable_arrangement(ri, r, p, by);
    let q = choose|p: Seq<int>| stable_arrangement(l + r, out, p, by);
    let nl = l.len() as int;
    let input = li + ri;
    let lr = l + r;
    let perm = Seq::new(
        out.len(),
        |k: int|
            if q[k] < nl {
                pl[q[k]]
            } else {
                li.len() + pr[q[k] - nl]
            },
    );
    assert forall|k: int| 0 <= k < out.len() implies #[trigger] out[k] == input[perm[k]] && 0
        <= perm[k] < input.len() by {
        assert(out[k] == lr[q[k]]);
        if q[k] < nl {
            assert(lr[q[k]] == l[q[k]]);
        } else {
            assert(lr[q[k]] == r[q[k] - nl]);
        }
    }
    assert forall|a: int, b: int| 0 <= a < b < perm.len() implies #[trigger] perm[a]
        != #[trigger] perm[b] by {
        assert(q[a] != q[b]);
        if q[a] < nl && q[b] < nl {
            if q[a] < q[b] {
                assert(pl[q[a]] != pl[q[b]]);
            } else {
                assert(pl[q[b]] != pl[q[a]]);
            }
        } else if q[a] >= nl && q[b] >= nl {
            if q[a] < q[b] {
                assert(pr[q[a] - nl] != pr[q[b] - nl]);
            } else {
                assert(pr[q[b] - nl] != pr[q[a] - nl]);
            }
        }
    }
    assert forall|a: int, b: int|
        0 <= a < b < out.len() && #[trigger] perm[a] > #[trigger] perm[b] implies precedes(
        out[a],
        out[b],
        by,
    ) by {
        if q[a] > q[b] {
        } else if q[a] < nl && q[b] < nl {
            assert(out[a] == l[q[a]]);
            assert(out[b] == l[q[b]]);
        } else if q[a] >= nl && q[b] >= nl {
            assert(out[a] == r[q[a] - nl]);
            assert(out[b] == r[q[b] - nl]);
        } else {
            assert(q[a] != q[b]);
        }
    }
    assert(stable_arrangement(input, out, perm, by));
}

/// The rows of `v` in the opposite order.
fn reversed(v: Vec<ProcessInfo>) -> (res: Vec<ProcessInfo>)
    ensures
        res@ == v@.reverse(),
{
    let ghost orig = v@;
    let mut v = v;
    let mut res: Vec<ProcessInfo> = Vec::new();
    while v.len() > 0
        invariant
            v@.len() <= orig.len(),
            v@ == orig.take(v@.len() as int),
            res@ == orig.skip(v@.len() as int).reverse(),
        decreases v@.len(),
    {
        let ghost k = v@.len() as int;
        let x = v.pop().unwrap();
        assert(x == orig[k - 1]);
        res.push(x);
        assert(v@ =~= orig.take(k - 1));
        assert(res@ =~= orig.skip(k - 1).reverse());
    }
    assert(orig.skip(0) =~= orig);
    res
}

/// Merges two tables, each in order under `by`, into one, taking from the
/// first table whenever `by` does not place the second table's next row
/// strictly before it.
fn merge(l: Vec<ProcessInfo>, r: Vec<ProcessInfo>, by: SortBy) -> (out: Vec<ProcessInfo>)
    requires
        sorted_by(l@, by),
        sorted_by(r@, by),
    ensures
        stably_sorted(l@ + r@, out@, by),
{
    let ghost ls = l@;
    let ghost rs = r@;
    let ghost input = ls + rs;
    let ghost nl = ls.len() as int;
    let ghost nr = rs.len() as int;
    let mut lv = reversed(l);
    let mut rv = reversed(r);
    assert(ls.skip(0) =~= ls);
    assert(rs.skip(0) =~= rs);
    let mut out: Vec<ProcessInfo> = Vec::new();
    let ghost mut i: int = 0;
    let ghost mut j: int = 0;
    let ghost mut q: Seq<int> = Seq::empty();
    while lv.len() > 0 || rv.len() > 0
        invariant
            0 <= i <= nl,
            0 <= j <= nr,
            input == ls + rs,
            nl == ls.len(),
            nr == rs.len(),
            sorted_by(ls, by),
            sorted_by(rs, by),
            lv@ == ls.skip(i).reverse(),
            rv@ == rs.skip(j).reverse(),
            out@.len() == i + j,
            q.len() == i + j,
            forall|k: int| 0 <= k < q.len() ==> (0 <= #[trigger] q[k] < i || nl <= q[k] < nl + j),
            forall|a: int, b: int| 0 <= a < b < q.len() ==> #[trigger] q[a] != #[trigger] q[b],
            forall|k: int| 0 <= k < out@.len() ==> #[trigger] out@[k] == input[q[k]],
            forall|a: int, b: int|
                0 <= a < b < out@.len() && #[trigger] q[a] > #[trigger] q[b] ==> precedes(
                    out@[a],
                    out@[b],
                    by,
                ),
            sorted_by(out@, by),
            forall|a: int| 0 <= a < i && j < nr ==> !precedes(rs[j], #[trigger] ls[a], by),
            forall|b: int| 0 <= b < j && i < nl ==> precedes(#[trigger] rs[b], ls[i], by),
        decreases (nl - i) + (nr - j),
    {
        let take_right = if lv.len() == 0 {
            true
        } else if rv.len() == 0 {
            false
        } else {
            goes_before(&rv[rv.len() - 1], &lv[lv.len() - 1], by)
        };
        proof {
            if lv.len() > 0 {
                assert(lv@.last() == ls[i]);
            }
            if rv.len() > 0 {
                assert(rv@.last() == rs[j]);
            }
        }
        let ghost old_out = out@;
        let ghost old_q = q;
        if take_right {
            let y = rv.pop().unwrap();
            proof {
                assert(y == rs[j]);
                assert forall|k: int| 0 <= k < old_out.len() implies !precedes(
                    y,
                    #[trigger] old_out[k],
                    by,
                ) by {
                    if old_q[k] < i {
                        assert(old_out[k] == ls[old_q[k]]);
                    } else {
                        assert(old_out[k] == input[old_q[k]]);
                        assert(old_out[k] == rs[old_q[k] - nl]);
                    }
                }
            }
            out.push(y);
            proof {
                q = old_q.push(nl + j);
                assert forall|a: int| 0 <= a < i && j + 1 < nr implies !precedes(
                    rs[j + 1],
                    #[trigger] ls[a],
                    by,
                ) by {
                    lemma_not_precedes_transitive(rs[j + 1], rs[j], ls[a], by);
                }
                j = j + 1;
                assert(rv@ =~= rs.skip(j).reverse());
                assert forall|a: int, b: int| 0 <= a < b < out@.len() implies !precedes(
                    #[trigger] out@[b],
                    #[trigger] out@[a],
                    by,
                ) by {
                    if b < old_out.len() {
                        assert(out@[b] == old_out[b] && out@[a] == old_out[a]);
                    }
                }
                assert forall|a: int, b: int|
                    0 <= a < b < out@.len() && #[trigger] q[a] > #[trigger] q[b] implies precedes(
                    out@[a],
                    out@[b],
                    by,
                ) by {
                    if b < old_out.len() {
                        assert(q[a] == old_q[a] && q[b] == old_q[b]);
                    } else {
                        assert(q[a] == old_q[a]);
                    }
                }
                assert forall|a: int, b: int| 0 <= a < b < q.len() implies #[trigger] q[a]
                    != #[trigger] q[b] by {
                    if b < old_q.len() {
                        assert(q[a] == old_q[a] && q[b] == old_q[b]);
                    } else {
                        assert(q[a] == old_q[a]);
                    }
                }
                assert forall|k: int| 0 <= k < out@.len() implies #[trigger] out@[k] == input[q[k]] by {
                    if k < old_out.len() {
                        assert(q[k] == old_q[k]);
                    }
                }
            }
        } else {
            let x = lv.pop().unwrap();
            proof {
                assert(x == ls[i]);
                assert forall|k: int| 0 <= k < old_out.len() implies !precedes(
                    x,
                    #[trigger] old_out[k],
                    by,
                ) by {
                    if old_q[k] < i {
                        assert(old_out[k] == ls[old_q[k]]);
                    } else {
                        assert(old_out[k] == input[old_q[k]]);
                        assert(old_out[k] == rs[old_q[k] - nl]);
                        lemma_precedes_asymmetric(rs[old_q[k] - nl], ls[i], by);
                    }
                }
            }
            out.push(x);
            proof {
                q = old_q.push(i);
                assert forall|b: int| 0 <= b < j && i + 1 < nl implies precedes(
                    #[trigger] rs[b],
                    ls[i + 1],
                    by,
                ) by {
                    lemma_precedes_then_not_precedes(rs[b], ls[i], ls[i + 1], by);
                }
                i = i + 1;
                assert(lv@ =~= ls.skip(i).reverse());
                assert forall|a: int, b: int| 0 <= a < b < out@.len() implies !precedes(
                    #[trigger] out@[b],
                    #[trigger] out@[a],
                    by,
                ) by {
                    if b < old_out.len() {
                        assert(out@[b] == old_out[b] && out@[a] == old_out[a]);
                    }
                }
                assert forall|a: int, b: int|
                    0 <= a < b < out@.len() && #[trigger] q[a] > #[trigger] q[b] implies precedes(
                    out@[a],
                    out@[b],
                    by,
                ) by {
                    if b < old_out.len() {
                        assert(q[a] == old_q[a] && q[b] == old_q[b]);
                    } else {
                        assert(q[a] == old_q[a]);
                        assert(out@[a] == old_out[a]);
                        assert(old_out[a] == input[old_q[a]]);
                        assert(old_out[a] == rs[old_q[a] - nl]);
                    }
                }
                assert forall|a: int, b: int| 0 <= a < b < q.len() implies #[trigger] q[a]
                    != #[trigger] q[b] by {
                    if b < old_q.len() {
                        assert(q[a] == old_q[a] && q[b] == old_q[b]);
                    } else {
                        assert(q[a] == old_q[a]);
                    }
                }
                assert forall|k: int| 0 <= k < out@.len() implies #[trigger] out@[k] == input[q[k]] by {
                    if k < old_out.len() {
                        assert(q[k] == old_q[k]);
                    }
                }
            }
        }
    }
    proof {
        assert(i == nl && j == nr);
        assert(stable_arrangement(input, out@, q, by));
    }
    out
}

/// Orders `procs` under `by`, keeping processes that `by` does not tell
/// apart in the order in which they came (a stable sort).
pub fn sort_processes(procs: Vec<ProcessInfo>, by: SortBy) -> (res: Vec<ProcessInfo>)
    ensures
        stably_sorted(procs@, res@, by),
    decreases procs@.len(),
{
    let n = procs.len();
    if n <= 1 {
        proof {
            let id = Seq::new(n as nat, |i: int| i);
            assert(stable_arrangement(procs@, procs@, id, by));
        }
        return procs;
    }
    let ghost input = procs@;
    let mut left = procs;
    let right = left.split_off(n / 2);
    let ghost li = left@;
    let ghost ri = right@;
    assert(input =~= li + ri);
    let l = sort_processes(left, by);
    let r = sort_processes(right, by);
    let ghost ls = l@;
    let ghost rs = r@;
    let out = merge(l, r, by);
    proof {
        lemma_sort_halves(li, ri, ls, rs, out@, by);
    }
    out
}

} // verus!
