//! Review mode: one sentence at a time, graded on correctness and speed.
//!
//! The clock is never shown to the reader. It exists so that an answer typed
//! straight away and an answer typed after five seconds of thinking do not earn
//! the same rating. Recall that has to be reconstructed is weaker recall, which
//! is exactly what the scheduler wants to know.
//!
//! The budget for an item is worked out from the item itself rather than a flat
//! number, because "Ich fahre mit ___ Bus." and a twenty word sentence with two
//! blanks are not the same amount of work.

use vstd::prelude::*;

use crate::domain::{fsrs_button, Rating};
use crate::grade::score_rating;
use crate::sheet::{blanks_of, canonical, texts_of, visible, BlankV, Item, ItemV, SegmentV};

verus! {

/// Fixed cost of taking in a new sentence, in milliseconds.
pub const READ_BASE_MS: u64 = 400;

/// Reading speed, about 200 words a minute for a non native reader: per character.
pub const READ_PER_CHAR_MS: u64 = 55;

/// Typing speed, deliberately generous: German on a keyboard you may be fighting.
pub const TYPE_PER_CHAR_MS: u64 = 260;

/// Answered inside the budget: within `EASY_RATIO_NUM / EASY_RATIO_DEN` of it.
pub const EASY_RATIO_NUM: u64 = 1;

pub const EASY_RATIO_DEN: u64 = 1;

/// Answered inside a bit under twice the budget: within 1.8 times it.
pub const GOOD_RATIO_NUM: u64 = 9;

pub const GOOD_RATIO_DEN: u64 = 5;

/// One item as the browser reports it: what was typed, and how long it took
/// from the sentence appearing to the answer being sent.
#[derive(Debug)]
pub struct ItemAttempt {
    pub n: u32,
    pub elapsed_ms: u32,
    /// Blank id to what was typed.
    pub answers: Vec<(String, String)>,
}

/// Characters of the canonical answers of some blanks, all together.
pub open spec fn answer_chars(bs: Seq<BlankV>) -> int
    decreases bs.len(),
{
    if bs.len() == 0 {
        0
    } else {
        answer_chars(bs.drop_last()) + canonical(bs.last()).len()
    }
}

/// The time budget of an item before it is capped to `u32`: reading the
/// visible text, then typing every canonical answer.
pub open spec fn budget(it: ItemV) -> int {
    READ_BASE_MS + READ_PER_CHAR_MS * visible(it.segments).len() + TYPE_PER_CHAR_MS * answer_chars(
        blanks_of(it.segments),
    )
}

/// The budget in milliseconds as `expected_ms` reports it.
pub open spec fn expected(it: ItemV) -> int {
    if budget(it) > u32::MAX {
        u32::MAX as int
    } else {
        budget(it)
    }
}

proof fn lemma_answer_chars_nonneg(bs: Seq<BlankV>)
    ensures
        answer_chars(bs) >= 0,
    decreases bs.len(),
{
    if bs.len() > 0 {
        lemma_answer_chars_nonneg(bs.drop_last());
    }
}

/// How long this item should reasonably take, in milliseconds.
pub fn expected_ms(item: &Item) -> (r: u32)
    ensures
        r == expected(item@),
{
    let cap: u128 = 4294967296;
    let vis = item.visible_text();
    let blanks = item.blanks();
    let ghost bs = blanks_of(item@.segments);
    let mut typing: u128 = 0;
    let mut k: usize = 0;
    while k < blanks.len()
        invariant
            k <= blanks.len(),
            cap == 4294967296,
            bs == blanks_of(item@.segments),
            blanks@.len() == bs.len(),
            forall|m: int| 0 <= m < blanks@.len() ==> (#[trigger] blanks@[m])@ == bs[m],
            typing <= cap,
            typing == if answer_chars(bs.take(k as int)) >= cap {
                cap as int
            } else {
                answer_chars(bs.take(k as int))
            },
        decreases blanks.len() - k,
    {
        let c = crate::text::chars_of(blanks[k].canonical());
        proof {
            assert(bs.take(k + 1).drop_last() =~= bs.take(k as int));
            assert(blanks@[k as int]@ == bs[k as int]);
            lemma_answer_chars_nonneg(bs.take(k as int));
        }
        let next: u128 = typing + c.len() as u128;
        typing = if next >= cap {
            cap
        } else {
            next
        };
        k += 1;
    }
    assert(bs.take(blanks.len() as int) =~= bs);
    proof {
        lemma_answer_chars_nonneg(bs);
    }
    let total: u128 = READ_BASE_MS as u128 + READ_PER_CHAR_MS as u128 * vis.len() as u128
        + TYPE_PER_CHAR_MS as u128 * typing;
    if total > u32::MAX as u128 {
        u32::MAX
    } else {
        total as u32
    }
}

/// The rating of one item from its budget, how long it took, and whether every
/// blank in it was right.
pub open spec fn item_rating(budget_ms: int, elapsed_ms: int, all_correct: bool) -> Rating {
    let b = if budget_ms < 1 {
        1
    } else {
        budget_ms
    };
    if !all_correct {
        Rating::Again
    } else if elapsed_ms * EASY_RATIO_DEN <= b * EASY_RATIO_NUM {
        Rating::Easy
    } else if elapsed_ms * GOOD_RATIO_DEN <= b * GOOD_RATIO_NUM {
        Rating::Good
    } else {
        Rating::Hard
    }
}

/// The rating one item earns.
///
/// A mistake is always `Again`, whatever the clock says. Speed only separates
/// the answers that were right.
pub fn grade_item(item: &Item, elapsed_ms: u32, all_correct: bool) -> (r: Rating)
    ensures
        r == item_rating(expected(item@), elapsed_ms as int, all_correct),
        !all_correct ==> r == Rating::Again,
{
    if !all_correct {
        return Rating::Again;
    }
    let e = expected_ms(item);
    let budget: u64 = if e < 1 {
        1
    } else {
        e as u64
    };
    let elapsed: u64 = elapsed_ms as u64;
    if elapsed * EASY_RATIO_DEN <= budget * EASY_RATIO_NUM {
        Rating::Easy
    } else if elapsed * GOOD_RATIO_DEN <= budget * GOOD_RATIO_NUM {
        Rating::Good
    } else {
        Rating::Hard
    }
}

/// What one item rating is worth when the whole session is averaged, in hundredths.
pub open spec fn weight(r: Rating) -> int {
    match r {
        Rating::Again => 0,
        Rating::Hard => 60,
        Rating::Good => 85,
        Rating::Easy => 100,
    }
}

fn weight_of(r: Rating) -> (w: u64)
    ensures
        w == weight(r),
{
    match r {
        Rating::Again => 0,
        Rating::Hard => 60,
        Rating::Good => 85,
        Rating::Easy => 100,
    }
}

/// Sum of the weights of a run, in hundredths.
pub open spec fn weight_sum(rs: Seq<Rating>) -> int
    decreases rs.len(),
{
    if rs.len() == 0 {
        0
    } else {
        weight_sum(rs.drop_last()) + weight(rs.last())
    }
}

/// The rating a finished run earns: the mean weight mapped through the same
/// thresholds a checked sheet uses, except that a run with a mistake in it
/// never rates Easy. An empty run is Again.
pub open spec fn session(rs: Seq<Rating>) -> Rating {
    if rs.len() == 0 {
        Rating::Again
    } else {
        let r = score_rating(weight_sum(rs), 100 * rs.len() as int);
        if rs.contains(Rating::Again) && r == Rating::Easy {
            Rating::Good
        } else {
            r
        }
    }
}

proof fn lemma_weight_sum_bound(rs: Seq<Rating>)
    ensures
        0 <= weight_sum(rs) <= 100 * rs.len(),
    decreases rs.len(),
{
    if rs.len() > 0 {
        lemma_weight_sum_bound(rs.drop_last());
    }
}

/// The rating the topic gets from a finished run.
///
/// The mean is mapped through the same thresholds a checked sheet uses, then one
/// rule is applied on top: a perfect rating needs a perfect run. Nineteen instant
/// answers and one mistake is a good session, not an easy one.
pub fn session_rating(item_ratings: &[Rating]) -> (r: Rating)
    ensures
        r == session(item_ratings@),
{
    let n = item_ratings.len();
    if n == 0 {
        return Rating::Again;
    }
    let ghost rs = item_ratings@;
    let mut sum: u128 = 0;
    let mut mistakes: bool = false;
    let mut k: usize = 0;
    while k < n
        invariant
            k <= n,
            n == rs.len(),
            rs == item_ratings@,
            sum == weight_sum(rs.take(k as int)),
            sum <= 100 * k,
            mistakes == rs.take(k as int).contains(Rating::Again),
        decreases n - k,
    {
        let x = item_ratings[k];
        proof {
            assert(rs.take(k + 1).drop_last() =~= rs.take(k as int));
            lemma_weight_sum_bound(rs.take(k as int));
            if x == Rating::Again {
                assert(rs.take(k + 1)[k as int] == x);
            } else {
                let t1 = rs.take(k + 1);
                if t1.contains(Rating::Again) {
                    let m = choose|m: int| 0 <= m < t1.len() && #[trigger] t1[m] == Rating::Again;
                    assert(rs.take(k as int)[m] == Rating::Again);
                }
            }
        }
        sum = sum + weight_of(x) as u128;
        if x == Rating::Again {
            mistakes = true;
        }
        k += 1;
    }
    assert(rs.take(n as int) =~= rs);
    let w: u128 = n as u128;
    // The mean weight is sum / (100 n); compared with the thresholds in hundredths.
    let rating = if sum < 60 * w {
        Rating::Again
    } else if sum < 80 * w {
        Rating::Hard
    } else if sum < 95 * w {
        Rating::Good
    } else {
        Rating::Easy
    };
    if mistakes && rating == Rating::Easy {
        Rating::Good
    } else {
        rating
    }
}

// ---------------------------------------------------------------- laws

/// A mistake is always Again, however fast it was typed.
pub proof fn law_mistake_is_again(budget_ms: int, elapsed_ms: int)
    ensures
        item_rating(budget_ms, elapsed_ms, false) == Rating::Again,
{
}

/// Taking longer over a correct item never earns a better rating.
pub proof fn law_slower_is_never_better(budget_ms: int, fast: int, slow: int, all_correct: bool)
    requires
        0 <= fast <= slow,
    ensures
        fsrs_button(item_rating(budget_ms, slow, all_correct)) <= fsrs_button(
            item_rating(budget_ms, fast, all_correct),
        ),
{
    let b = if budget_ms < 1 {
        1
    } else {
        budget_ms
    };
    assert(fast * 5 <= slow * 5) by (nonlinear_arith)
        requires
            fast <= slow,
    ;
}

/// A perfect rating needs a perfect run: a run rated Easy has no mistake in it.
pub proof fn law_easy_needs_a_perfect_run(rs: Seq<Rating>)
    requires
        session(rs) == Rating::Easy,
    ensures
        !rs.contains(Rating::Again),
{
}

/// A longer sentence, or a longer answer, never shortens the budget.
pub proof fn law_longer_items_get_longer_budgets(a: ItemV, b: ItemV)
    requires
        visible(a.segments).len() <= visible(b.segments).len(),
        answer_chars(blanks_of(a.segments)) <= answer_chars(blanks_of(b.segments)),
    ensures
        budget(a) <= budget(b),
        expected(a) <= expected(b),
        budget(a) < budget(b) <==> (visible(a.segments).len() < visible(b.segments).len()
            || answer_chars(blanks_of(a.segments)) < answer_chars(blanks_of(b.segments))),
{
}

/// Every blank of a sentence is typed in full. A sentence without blanks costs
/// only its reading, 400 ms plus 55 ms a visible character; adding a blank
/// whose canonical answer has `c` characters adds exactly `260 * c` ms, and
/// leaves the reading part as it was.
pub proof fn law_every_blank_is_typed(it: ItemV, b: BlankV)
    ensures
        blanks_of(it.segments).len() == 0 ==> budget(it) == 400 + 55 * visible(it.segments).len(),
        budget(ItemV { n: it.n, segments: it.segments.push(SegmentV::Blank(b)), hint: it.hint })
            == budget(it) + 260 * canonical(b).len(),
{
    let segs = it.segments;
    let more = segs.push(SegmentV::Blank(b));
    assert(more.drop_last() =~= segs);
    assert(blanks_of(more) == blanks_of(segs).push(b));
    assert(texts_of(more) == texts_of(segs));
    let bs = blanks_of(segs);
    assert(bs.push(b).drop_last() =~= bs);
    assert(answer_chars(bs.push(b)) == answer_chars(bs) + canonical(b).len());
    if bs.len() == 0 {
        assert(answer_chars(bs) == 0);
    }
}

} // verus!
