//! The figures that a crawl run reports: how many pages were fetched and
//! saved, where each page's text goes, and how memory use changed.
use vstd::prelude::*;

verus! {

/// How many of `outcomes` are successes.
pub open spec fn count_successes(outcomes: Seq<bool>) -> nat
    decreases outcomes.len(),
{
    if outcomes.len() == 0 {
        0
    } else {
        count_successes(outcomes.drop_last()) + if outcomes.last() {
            1nat
        } else {
            0nat
        }
    }
}

/// A run with no outcomes has no successes, and one more outcome adds one
/// success exactly when it is a success: a failure never counts as one.
pub proof fn lemma_count_successes_step(outcomes: Seq<bool>, next: bool)
    ensures
        count_successes(Seq::<bool>::empty()) == 0,
        count_successes(outcomes.push(next)) == count_successes(outcomes) + if next {
            1nat
        } else {
            0nat
        },
{
    assert(outcomes.push(next).drop_last() =~= outcomes);
}

/// The successes of a run are its `true` outcomes: their number is the size
/// of the set of positions that hold `true`.
pub proof fn lemma_count_successes_is_true_positions(outcomes: Seq<bool>)
    ensures
        count_successes(outcomes) == Set::new(|i: int| 0 <= i < outcomes.len() && outcomes[i]).len(),
        Set::new(|i: int| 0 <= i < outcomes.len() && outcomes[i]).finite(),
    decreases outcomes.len(),
{
    let all = Set::new(|i: int| 0 <= i < outcomes.len() && outcomes[i]);
    if outcomes.len() == 0 {
        assert(all =~= Set::<int>::empty());
    } else {
        let t = outcomes.drop_last();
        lemma_count_successes_is_true_positions(t);
        let part = Set::new(|i: int| 0 <= i < t.len() && t[i]);
        let last = outcomes.len() - 1;
        if outcomes.last() {
            assert(all =~= part.insert(last));
            assert(!part.contains(last));
        } else {
            assert(all =~= part);
        }
    }
}

/// The number of successful and of failed crawls in a run.
pub struct CrawlTally {
    pub succeeded: usize,
    pub failed: usize,
}

/// Counts the successes and failures among the outcomes of a run, one
/// `bool` per school (`true` where its text was fetched and saved).
pub fn tally_outcomes(outcomes: &[bool]) -> (res: CrawlTally)
    ensures
        res.succeeded == count_successes(outcomes@),
        res.failed == outcomes@.len() - count_successes(outcomes@),
        res.succeeded + res.failed == outcomes@.len(),
{
    let mut succeeded: usize = 0;
    let mut failed: usize = 0;
    let mut i: usize = 0;
    while i < outcomes.len()
        invariant
            i <= outcomes@.len(),
            succeeded == count_successes(outcomes@.take(i as int)),
            succeeded + failed == i,
        decreases outcomes@.len() - i,
    {
        assert(outcomes@.take(i + 1).drop_last() =~= outcomes@.take(i as int));
        if outcomes[i] {
            succeeded += 1;
        } else {
            failed += 1;
        }
        i += 1;
    }
    assert(outcomes@.take(i as int) =~= outcomes@);
    CrawlTally { succeeded, failed }
}

/// The name of the file that holds a school's page text: the school's name
/// followed by `.txt`.
pub fn output_file_name(school_name: &str) -> (res: String)
    ensures
        res@ == school_name@ + ".txt"@,
{
    String::from_str(school_name).concat(".txt")
}

/// Resident memory before and after a run, and its growth, in kilobytes.
pub struct MemoryUsage {
    pub before_kb: usize,
    pub after_kb: usize,
    pub increase_kb: usize,
}

/// The growth from `before_kb` to `after_kb`, or 0 where memory shrank.
pub open spec fn memory_increase(before_kb: usize, after_kb: usize) -> usize {
    if after_kb >= before_kb {
        (after_kb - before_kb) as usize
    } else {
        0
    }
}

/// The memory figures of a run whose resident size went from `before_kb`
/// to `after_kb`.
pub fn memory_usage(before_kb: usize, after_kb: usize) -> (res: MemoryUsage)
    ensures
        res.before_kb == before_kb,
        res.after_kb == after_kb,
        res.increase_kb == memory_increase(before_kb, after_kb),
        after_kb >= before_kb ==> before_kb + res.increase_kb == after_kb,
        after_kb < before_kb ==> res.increase_kb == 0,
{
    MemoryUsage { before_kb, after_kb, increase_kb: after_kb.saturating_sub(before_kb) }
}

} // verus!
