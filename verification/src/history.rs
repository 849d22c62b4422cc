use vstd::prelude::*;

verus! {

/// Number of samples that every history keeps.
pub const HISTORY_LEN: usize = 60;

/// The history `h` after `value` was appended: the new sample goes to the
/// back and, once the history has grown past `HISTORY_LEN`, the oldest one
/// is dropped from the front.
pub open spec fn pushed<T>(h: Seq<T>, value: T) -> Seq<T> {
    if h.len() + 1 > HISTORY_LEN {
        h.push(value).drop_first()
    } else {
        h.push(value)
    }
}

/// Appends `value` to `history`, dropping the oldest sample when the
/// history would otherwise hold more than `HISTORY_LEN` samples.
pub fn push_history<T>(history: &mut Vec<T>, value: T)
    ensures
        final(history)@ == pushed(old(history)@, value),
{
    history.push(value);
    if history.len() > HISTORY_LEN {
        history.remove(0);
    }
}

/// A history holds 60 samples. Once a history is full, a push keeps its length, puts the new sample
/// last and moves every other sample one place towards the front,
/// dropping the oldest; a history that is not full grows by one.
pub proof fn lemma_pushed_full<T>(h: Seq<T>, value: T)
    ensures
        HISTORY_LEN == 60,
        h.len() == HISTORY_LEN ==> pushed(h, value).len() == HISTORY_LEN,
        h.len() == HISTORY_LEN ==> forall|i: int|
            0 <= i < HISTORY_LEN - 1 ==> #[trigger] pushed(h, value)[i] == h[i + 1],
        h.len() < HISTORY_LEN ==> pushed(h, value).len() == h.len() + 1,
        h.len() <= HISTORY_LEN ==> pushed(h, value).len() <= HISTORY_LEN,
        pushed(h, value).last() == value,
        pushed(h, value).drop_last() == if h.len() + 1 > HISTORY_LEN {
            h.drop_first()
        } else {
            h
        },
{
    if h.len() + 1 > HISTORY_LEN {
        assert(h.push(value).drop_first().drop_last() =~= h.drop_first());
    } else {
        assert(h.push(value).drop_last() =~= h);
    }
}

/// The sum of all counters in `s`, as a mathematical integer.
pub open spec fn total(s: Seq<u64>) -> int
    decreases s.len(),
{
    if s.len() == 0 {
        0
    } else {
        total(s.drop_last()) + s.last()
    }
}

/// The sum of a list of counters is the sum of its parts; an empty list
/// sums to 0 and a single counter to itself.
pub proof fn lemma_total_append(a: Seq<u64>, b: Seq<u64>)
    ensures
        total(a + b) == total(a) + total(b),
        total(Seq::<u64>::empty()) == 0,
        forall|x: u64| total(seq![x]) == x,
    decreases b.len(),
{
    assert forall|x: u64| total(seq![x]) == x by {
        assert(seq![x].drop_last() =~= Seq::<u64>::empty());
        assert(total(Seq::<u64>::empty()) == 0);
        assert(seq![x].last() == x);
    }
    if b.len() > 0 {
        lemma_total_append(a, b.drop_last());
        assert((a + b).drop_last() =~= a + b.drop_last());
    } else {
        assert(a + b =~= a);
    }
}

/// Sums over prefixes never decrease as the prefix grows.
pub proof fn lemma_total_prefix_monotone(s: Seq<u64>, i: int, j: int)
    requires
        0 <= i <= j <= s.len(),
    ensures
        total(s.take(i)) <= total(s.take(j)),
    decreases j - i,
{
    if i < j {
        lemma_total_prefix_monotone(s, i, j - 1);
        assert(s.take(j).drop_last() =~= s.take(j - 1));
    }
}

/// Sums the per-device counters in `values`; `None` exactly when the sum
/// does not fit in a `u64`.
pub fn counter_total(values: &Vec<u64>) -> (res: Option<u64>)
    ensures
        match res {
            Some(t) => t == total(values@),
            None => total(values@) > u64::MAX,
        },
{
    let mut acc: u64 = 0;
    let n = values.len();
    let mut i: usize = 0;
    while i < n
        invariant
            n == values@.len(),
            i <= n,
            acc == total(values@.take(i as int)),
        decreases n - i,
    {
        assert(values@.take(i + 1).drop_last() =~= values@.take(i as int));
        match acc.checked_add(values[i]) {
            Some(next) => {
                acc = next;
            },
            None => {
                proof {
                    lemma_total_prefix_monotone(values@, i + 1, n as int);
                    assert(values@.take(n as int) =~= values@);
                }
                return None;
            },
        }
        i = i + 1;
    }
    assert(values@.take(n as int) =~= values@);
    Some(acc)
}

} // verus!
