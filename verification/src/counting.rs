use vstd::prelude::*;

verus! {

/// How many of the flags are set.
pub open spec fn count_true(flags: Seq<bool>) -> nat
    decreases flags.len(),
{
    if flags.len() == 0 {
        0
    } else {
        count_true(flags.drop_last()) + if flags.last() {
            1nat
        } else {
            0nat
        }
    }
}

/// Counting one flag further adds one if that flag is set.
pub proof fn lemma_count_step(flags: Seq<bool>, n: int)
    requires
        0 <= n < flags.len(),
    ensures
        count_true(flags.take(n + 1)) == count_true(flags.take(n)) + if flags[n] {
            1nat
        } else {
            0nat
        },
        count_true(flags.take(n + 1)) <= n + 1,
    decreases n,
{
    assert(flags.take(n + 1).drop_last() == flags.take(n));
    if n > 0 {
        lemma_count_step(flags, n - 1);
    } else {
        assert(count_true(flags.take(0)) == 0);
    }
}

/// The count never goes down as more flags are counted, and never exceeds
/// the number of flags counted.
pub proof fn lemma_count_stretch(flags: Seq<bool>, low: int, high: int)
    requires
        0 <= low <= high <= flags.len(),
    ensures
        count_true(flags.take(low)) <= count_true(flags.take(high)),
        count_true(flags.take(high)) <= count_true(flags.take(low)) + (high - low),
        count_true(flags.take(high)) <= high,
    decreases high - low,
{
    if low < high {
        lemma_count_stretch(flags, low, high - 1);
        lemma_count_step(flags, high - 1);
    } else if low > 0 {
        lemma_count_step(flags, low - 1);
    } else {
        assert(count_true(flags.take(0)) == 0);
    }
}

/// Over a stretch of flags that are all clear the count stays as it is.
pub proof fn lemma_count_clear(flags: Seq<bool>, low: int, high: int)
    requires
        0 <= low <= high <= flags.len(),
        forall|i: int| low <= i < high ==> !flags[i],
    ensures
        count_true(flags.take(high)) == count_true(flags.take(low)),
    decreases high - low,
{
    if low < high {
        lemma_count_clear(flags, low, high - 1);
        lemma_count_step(flags, high - 1);
    }
}

/// Over a stretch of flags that are all set the count grows by the length
/// of the stretch.
pub proof fn lemma_count_set(flags: Seq<bool>, low: int, high: int)
    requires
        0 <= low <= high <= flags.len(),
        forall|i: int| low <= i < high ==> flags[i],
    ensures
        count_true(flags.take(high)) == count_true(flags.take(low)) + (high - low),
    decreases high - low,
{
    if low < high {
        lemma_count_set(flags, low, high - 1);
        lemma_count_step(flags, high - 1);
    }
}

/// A list of flags that has no flag set where another has none, and at
/// least at one place a flag less, has fewer flags set.
pub proof fn lemma_count_fewer(more: Seq<bool>, fewer: Seq<bool>, place: int)
    requires
        more.len() == fewer.len(),
        forall|i: int| 0 <= i < more.len() && fewer[i] ==> more[i],
        0 <= place < more.len(),
        more[place],
        !fewer[place],
    ensures
        count_true(fewer) < count_true(more),
    decreases more.len(),
{
    let last = more.len() - 1;
    if place == last {
        lemma_count_no_more(more.drop_last(), fewer.drop_last());
    } else {
        lemma_count_fewer(more.drop_last(), fewer.drop_last(), place);
    }
}

/// A list of flags that has no flag set where another has none has no more
/// flags set.
pub proof fn lemma_count_no_more(more: Seq<bool>, fewer: Seq<bool>)
    requires
        more.len() == fewer.len(),
        forall|i: int| 0 <= i < more.len() && fewer[i] ==> more[i],
    ensures
        count_true(fewer) <= count_true(more),
        count_true(more) <= more.len(),
    decreases more.len(),
{
    if more.len() > 0 {
        lemma_count_no_more(more.drop_last(), fewer.drop_last());
    }
}

/// Among flags that are not all clear one is the first that is set.
pub proof fn lemma_first_set(flags: Seq<bool>) -> (first: int)
    requires
        exists|i: int| 0 <= i < flags.len() && flags[i],
    ensures
        0 <= first < flags.len(),
        flags[first],
        forall|i: int| 0 <= i < first ==> !flags[i],
    decreases flags.len(),
{
    let shorter = flags.drop_last();
    if exists|i: int| 0 <= i < shorter.len() && shorter[i] {
        let first = lemma_first_set(shorter);
        assert(flags[first] == shorter[first]);
        assert forall|i: int| 0 <= i < first implies !flags[i] by {
            assert(flags[i] == shorter[i]);
        }
        first
    } else {
        let last = flags.len() - 1;
        assert forall|i: int| 0 <= i < last implies !flags[i] by {
            assert(flags[i] == shorter[i]);
        }
        last
    }
}

/// Where every flag is clear the count is zero.
pub proof fn lemma_count_all_clear(flags: Seq<bool>)
    requires
        forall|i: int| 0 <= i < flags.len() ==> !flags[i],
    ensures
        count_true(flags) == 0,
    decreases flags.len(),
{
    if flags.len() > 0 {
        lemma_count_all_clear(flags.drop_last());
    }
}

/// Setting a flag that was clear adds one to the count.
pub proof fn lemma_count_raise(flags: Seq<bool>, place: int)
    requires
        0 <= place < flags.len(),
        !flags[place],
    ensures
        count_true(flags.update(place, true)) == count_true(flags) + 1,
        count_true(flags.update(place, true)) <= flags.len(),
    decreases flags.len(),
{
    let raised = flags.update(place, true);
    let last = flags.len() - 1;
    if place == last {
        assert(raised.drop_last() == flags.drop_last());
        lemma_count_no_more(flags.drop_last(), flags.drop_last());
    } else {
        assert(raised.drop_last() == flags.drop_last().update(place, true));
        lemma_count_raise(flags.drop_last(), place);
    }
}

/// A list of the given length with every flag clear.
pub fn clear_flags(len: usize) -> (flags: Vec<bool>)
    ensures
        flags@.len() == len,
        forall|i: int| 0 <= i < len ==> !flags@[i],
        count_true(flags@) == 0,
{
    let mut flags: Vec<bool> = Vec::with_capacity(len);
    let mut filled: usize = 0;
    while filled < len
        invariant
            filled <= len,
            flags@.len() == filled,
            forall|i: int| 0 <= i < filled ==> !flags@[i],
            count_true(flags@) == 0,
        decreases len - filled,
    {
        let ghost before = flags@;
        flags.push(false);
        assert(flags@.drop_last() == before);
        filled += 1;
    }
    flags
}

} // verus!
