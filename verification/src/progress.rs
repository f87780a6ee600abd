//! What is kept about each topic between sessions, and what the answer log
//! says about the learner.
//!
//! The queries live outside the library. What they store and what they read
//! back is decided here: the state a review leaves a topic in, when a topic is
//! due, the columns an answer is logged with, and which error tags come up most.

use vstd::prelude::*;

use crate::calendar::{parse_day, text_day};
use crate::domain::{tag_text, ErrorKind, Rating};
use crate::grade::{Verdict, VerdictV};
use crate::domain::kind_name;
use crate::text::{
    chars_of, copy_chars, is_space, join_spaced, lemma_words_of_joined, one_word, push_str,
    same_chars, split_words, string_of, views_of, words,
};

verus! {

// ---------------------------------------------------------------- topic state

pub struct TopicStateV {
    pub topic_id: Seq<char>,
    pub due: Option<i32>,
    pub last_review: Option<i32>,
    pub reps: int,
    pub lapses: int,
}

/// The scheduling state of one topic. Dates are day numbers (see `calendar`);
/// the memory the scheduler keeps beside them is not part of it.
#[derive(Debug, PartialEq)]
pub struct TopicState {
    pub topic_id: String,
    pub due: Option<i32>,
    pub last_review: Option<i32>,
    pub reps: i64,
    pub lapses: i64,
}

impl View for TopicState {
    type V = TopicStateV;

    open spec fn view(&self) -> TopicStateV {
        TopicStateV {
            topic_id: self.topic_id@,
            due: self.due,
            last_review: self.last_review,
            reps: self.reps as int,
            lapses: self.lapses as int,
        }
    }
}

/// A topic is due when it has never been studied, or its due date has come.
pub open spec fn due_on(s: TopicStateV, today: int) -> bool {
    match s.due {
        None => true,
        Some(d) => d <= today,
    }
}

/// Whole days since the last review, never negative, and 0 before the first one.
pub open spec fn days_since(s: TopicStateV, today: int) -> int {
    match s.last_review {
        None => 0,
        Some(last) => if today - last < 0 {
            0
        } else {
            today - last
        },
    }
}

/// The state a review leaves a topic in: due again on `due`, last studied
/// `today`, one more repetition, and one more lapse when the review failed.
pub open spec fn reviewed(s: TopicStateV, rating: Rating, due: i32, today: i32) -> TopicStateV {
    TopicStateV {
        topic_id: s.topic_id,
        due: Some(due),
        last_review: Some(today),
        reps: s.reps + 1,
        lapses: s.lapses + if rating == Rating::Again {
            1int
        } else {
            0int
        },
    }
}

/// A stored date column: absent, a date, or text that is not a date.
pub open spec fn stored_day(col: Option<Seq<char>>) -> Option<Option<i32>> {
    match col {
        None => Some(None),
        Some(t) => match text_day(t) {
            Some(d) => Some(Some(d)),
            None => None,
        },
    }
}

pub open spec fn text_col(col: Option<String>) -> Option<Seq<char>> {
    match col {
        Some(s) => Some(s@),
        None => None,
    }
}

fn read_day(col: &Option<String>) -> (r: Option<Option<i32>>)
    ensures
        r == stored_day(text_col(*col)),
{
    match col {
        None => Some(None),
        Some(t) => match parse_day(t.as_str()) {
            Some(d) => Some(Some(d)),
            None => None,
        },
    }
}

impl TopicState {
    /// A topic is due when it has never been studied, or its due date has come.
    pub fn is_due(&self, today: i32) -> (r: bool)
        ensures
            r == due_on(self@, today as int),
    {
        match self.due {
            None => true,
            Some(due) => due <= today,
        }
    }

    /// Whole days since the last review; 0 if there was none, or if it lies in
    /// the future.
    pub fn days_since_review(&self, today: i32) -> (r: u32)
        ensures
            r == days_since(self@, today as int),
    {
        match self.last_review {
            None => 0,
            Some(last) => {
                let d: i64 = today as i64 - last as i64;
                if d < 0 {
                    0
                } else {
                    d as u32
                }
            },
        }
    }

    /// The state after one more review, as it is written back.
    pub fn after_review(&self, rating: Rating, due: i32, today: i32) -> (r: TopicState)
        requires
            self.reps < i64::MAX,
            self.lapses < i64::MAX,
        ensures
            r@ == reviewed(self@, rating, due, today),
            r.reps == self.reps + 1,
            r.lapses == self.lapses + (if rating == Rating::Again {
                1int
            } else {
                0int
            }),
    {
        let lapse: i64 = match rating {
            Rating::Again => 1,
            _ => 0,
        };
        TopicState {
            topic_id: self.topic_id.clone(),
            due: Some(due),
            last_review: Some(today),
            reps: self.reps + 1,
            lapses: self.lapses + lapse,
        }
    }

    /// A state read back from its stored columns, the dates as `YYYY-MM-DD`
    /// text. None when a stored date is not a date.
    pub fn from_columns(
        topic_id: String,
        due: Option<String>,
        last_review: Option<String>,
        reps: i64,
        lapses: i64,
    ) -> (r: Option<TopicState>)
        ensures
            match (stored_day(text_col(due)), stored_day(text_col(last_review))) {
                (Some(d), Some(l)) => r == Some(
                    TopicState { topic_id, due: d, last_review: l, reps, lapses },
                ),
                _ => r is None,
            },
    {
        let d = read_day(&due);
        let l = read_day(&last_review);
        match (d, l) {
            (Some(d), Some(l)) => Some(TopicState { topic_id, due: d, last_review: l, reps, lapses }),
            _ => None,
        }
    }
}

/// A reviewed topic waits for its new due date: it is due on that day and
/// after, and not before, whatever it was before the review.
pub proof fn law_reviewed_topic_waits_until_due(s: TopicStateV, rating: Rating, due: i32, today: i32, day: int)
    ensures
        due_on(reviewed(s, rating, due, today), day) <==> due <= day,
        days_since(reviewed(s, rating, due, today), today as int) == 0,
{
}

/// Every review counts once, and only a failed one is a lapse: the repetitions
/// grow by one whatever the rating, the lapses grow by one on Again and stay as
/// they were on Hard, Good and Easy, and the topic stays the same topic.
pub proof fn law_only_a_failed_review_is_a_lapse(s: TopicStateV, rating: Rating, due: i32, today: i32)
    ensures
        reviewed(s, rating, due, today).topic_id == s.topic_id,
        reviewed(s, rating, due, today).reps == s.reps + 1,
        rating == Rating::Again ==> reviewed(s, rating, due, today).lapses == s.lapses + 1,
        rating == Rating::Hard ==> reviewed(s, rating, due, today).lapses == s.lapses,
        rating == Rating::Good ==> reviewed(s, rating, due, today).lapses == s.lapses,
        rating == Rating::Easy ==> reviewed(s, rating, due, today).lapses == s.lapses,
{
}

// ---------------------------------------------------------------- answer log

/// The expected answer and the error tags an answer is logged with. A correct
/// answer logs neither, one correct with a note logs the form that was
/// expected, and a wrong one logs the expected form and its tags, space
/// separated.
pub open spec fn answer_columns(v: VerdictV) -> (Seq<char>, Seq<char>) {
    match v {
        VerdictV::Correct => (seq![], seq![]),
        VerdictV::CorrectWithNote { expected, .. } => (expected, seq![]),
        VerdictV::Wrong { expected, tags } => (
            expected,
            join_spaced(tags.map_values(|t: (ErrorKind, Seq<char>)| tag_text(t))),
        ),
    }
}

/// The `expected` and `tags` columns for one logged answer.
pub fn answer_fields(verdict: &Verdict) -> (r: (String, String))
    ensures
        (r.0@, r.1@) == answer_columns(verdict@),
{
    match verdict {
        Verdict::Correct => {
            proof {
                reveal_strlit("");
            }
            (String::new(), String::new())
        },
        Verdict::CorrectWithNote { expected, .. } => {
            proof {
                reveal_strlit("");
            }
            (expected.clone(), String::new())
        },
        Verdict::Wrong { expected, tags } => {
            let ghost texts = tags@.map_values(|t: crate::domain::ErrorTag| tag_text(t@));
            let mut m: Vec<char> = Vec::new();
            let mut k: usize = 0;
            while k < tags.len()
                invariant
                    k <= tags.len(),
                    texts == tags@.map_values(|t: crate::domain::ErrorTag| tag_text(t@)),
                    m@ == join_spaced(texts.take(k as int)),
                decreases tags.len() - k,
            {
                let t = tags[k].to_string();
                if k > 0 {
                    m.push(' ');
                }
                push_str(&mut m, t.as_str());
                proof {
                    let next = texts.take(k + 1);
                    assert(next.drop_last() =~= texts.take(k as int));
                    assert(next.last() == texts[k as int]);
                    if k == 0 {
                        assert(m@ =~= join_spaced(next));
                    } else {
                        assert(m@ =~= join_spaced(next));
                    }
                }
                k += 1;
            }
            proof {
                assert(texts.take(tags.len() as int) =~= texts);
                assert(texts =~= tags@.map_values(|t: crate::domain::ErrorTag| t@).map_values(
                    |t: (ErrorKind, Seq<char>)| tag_text(t),
                ));
            }
            (expected.clone(), string_of(&m))
        },
    }
}

/// A tag whose detail is one word is written as one word.
proof fn lemma_tag_text_one_word(t: (ErrorKind, Seq<char>))
    requires
        one_word(t.1),
    ensures
        one_word(tag_text(t)),
{
    let k = kind_name(t.0);
    let x = tag_text(t);
    assert(k.len() > 0);
    assert forall|i: int| 0 <= i < k.len() implies !is_space(#[trigger] k[i]) by {}
    assert forall|i: int| 0 <= i < x.len() implies !is_space(#[trigger] x[i]) by {
        if i < k.len() {
            assert(x[i] == k[i]);
        } else if i == k.len() {
            assert(x[i] == ':');
        } else {
            assert(x[i] == t.1[i - k.len() - 1]);
        }
    }
}

/// The tags logged with a wrong answer are read back one by one when the log
/// is split into words, which is how the error tags are counted, as long as
/// every tag's detail is a single word (as every well formed tag's is).
pub proof fn law_logged_tags_read_back(expected: Seq<char>, tags: Seq<(ErrorKind, Seq<char>)>)
    requires
        forall|k: int| 0 <= k < tags.len() ==> one_word(#[trigger] tags[k].1),
    ensures
        words(answer_columns(VerdictV::Wrong { expected, tags }).1) == tags.map_values(
            |t: (ErrorKind, Seq<char>)| tag_text(t),
        ),
{
    let texts = tags.map_values(|t: (ErrorKind, Seq<char>)| tag_text(t));
    assert forall|k: int| 0 <= k < texts.len() implies one_word(#[trigger] texts[k]) by {
        lemma_tag_text_one_word(tags[k]);
    }
    lemma_words_of_joined(texts);
}

// ---------------------------------------------------------------- error tags

pub open spec fn strings_view(rows: Seq<String>) -> Seq<Seq<char>> {
    rows.map_values(|s: String| s@)
}

/// Every whitespace separated word of every row, row after row.
pub open spec fn all_words(rows: Seq<Seq<char>>) -> Seq<Seq<char>>
    decreases rows.len(),
{
    if rows.len() == 0 {
        seq![]
    } else {
        all_words(rows.drop_last()) + words(rows.last())
    }
}

/// How many times `w` occurs in `ws`.
pub open spec fn count_of(ws: Seq<Seq<char>>, w: Seq<char>) -> nat
    decreases ws.len(),
{
    if ws.len() == 0 {
        0
    } else {
        count_of(ws.drop_last(), w) + if ws.last() == w {
            1nat
        } else {
            0nat
        }
    }
}

/// `a` sorts before `b` as Rust orders strings: character by character, and a
/// proper prefix first.
pub open spec fn text_less(a: Seq<char>, b: Seq<char>) -> bool
    decreases a.len(),
{
    if a.len() == 0 {
        b.len() > 0
    } else if b.len() == 0 {
        false
    } else if a[0] != b[0] {
        (a[0] as int) < (b[0] as int)
    } else {
        text_less(a.drop_first(), b.drop_first())
    }
}

/// In the list of weaknesses `a` comes before `b`: the tag seen more often
/// first, and between equal counts the tag that sorts first.
pub open spec fn worse_first(a: (Seq<char>, int), b: (Seq<char>, int)) -> bool {
    a.1 > b.1 || (a.1 == b.1 && text_less(a.0, b.0))
}

/// `r` has an entry for the word `w`.
pub open spec fn lists(r: Seq<(Seq<char>, int)>, w: Seq<char>) -> bool {
    exists|i: int| 0 <= i < r.len() && (#[trigger] r[i]).0 == w
}

/// `r` lists every word of `ws` with the number of times it occurs, worst first.
pub open spec fn is_tally(r: Seq<(Seq<char>, int)>, ws: Seq<Seq<char>>) -> bool {
    &&& forall|i: int| 0 <= i < r.len() ==> (#[trigger] r[i]).1 == count_of(ws, r[i].0) && r[i].1 > 0
    &&& forall|k: int| 0 <= k < ws.len() ==> lists(r, #[trigger] ws[k])
    &&& forall|i: int, j: int| 0 <= i < j < r.len() ==> worse_first(#[trigger] r[i], #[trigger] r[j])
}

pub open spec fn tally_view(r: Seq<(String, i64)>) -> Seq<(Seq<char>, int)> {
    r.map_values(|p: (String, i64)| (p.0@, p.1 as int))
}

proof fn lemma_count_push(s: Seq<Seq<char>>, w: Seq<char>, x: Seq<char>)
    ensures
        count_of(s.push(w), x) == count_of(s, x) + if x == w {
            1nat
        } else {
            0nat
        },
{
    assert(s.push(w).drop_last() =~= s);
}

proof fn lemma_count_le(s: Seq<Seq<char>>, x: Seq<char>)
    ensures
        count_of(s, x) <= s.len(),
    decreases s.len(),
{
    if s.len() > 0 {
        lemma_count_le(s.drop_last(), x);
    }
}

proof fn lemma_count_found(s: Seq<Seq<char>>, x: Seq<char>)
    requires
        count_of(s, x) > 0,
    ensures
        exists|m: int| 0 <= m < s.len() && s[m] == x,
    decreases s.len(),
{
    if s.last() != x {
        lemma_count_found(s.drop_last(), x);
        let m = choose|m: int| 0 <= m < s.len() - 1 && s.drop_last()[m] == x;
        assert(s[m] == x);
    } else {
        assert(s[s.len() - 1] == x);
    }
}

proof fn lemma_text_less_irrefl(a: Seq<char>)
    ensures
        !text_less(a, a),
    decreases a.len(),
{
    if a.len() > 0 {
        lemma_text_less_irrefl(a.drop_first());
    }
}

proof fn lemma_text_less_trans(a: Seq<char>, b: Seq<char>, c: Seq<char>)
    requires
        text_less(a, b),
        text_less(b, c),
    ensures
        text_less(a, c),
    decreases a.len(),
{
    if a.len() > 0 && b.len() > 0 && c.len() > 0 && a[0] == b[0] && b[0] == c[0] {
        lemma_text_less_trans(a.drop_first(), b.drop_first(), c.drop_first());
    }
}

proof fn lemma_text_less_total(a: Seq<char>, b: Seq<char>)
    requires
        a != b,
    ensures
        text_less(a, b) || text_less(b, a),
    decreases a.len(),
{
    if a.len() > 0 && b.len() > 0 && a[0] == b[0] {
        if a.drop_first() == b.drop_first() {
            assert(a =~= seq![a[0]] + a.drop_first());
            assert(b =~= seq![b[0]] + b.drop_first());
        }
        lemma_text_less_total(a.drop_first(), b.drop_first());
    } else if a.len() == 0 && b.len() == 0 {
        assert(a =~= b);
    }
}

proof fn lemma_text_less_skip(a: Seq<char>, b: Seq<char>, i: int)
    requires
        0 <= i <= a.len(),
        i <= b.len(),
        a.take(i) =~= b.take(i),
    ensures
        text_less(a, b) == text_less(a.skip(i), b.skip(i)),
    decreases i,
{
    if i == 0 {
        assert(a.skip(0) =~= a);
        assert(b.skip(0) =~= b);
    } else {
        assert(a[0] == a.take(i)[0]);
        assert(b[0] == b.take(i)[0]);
        assert(a.drop_first().take(i - 1) =~= b.drop_first().take(i - 1)) by {
            assert forall|j: int| 0 <= j < i - 1 implies a.drop_first()[j] == b.drop_first()[j] by {
                assert(a.take(i)[j + 1] == b.take(i)[j + 1]);
            }
        }
        lemma_text_less_skip(a.drop_first(), b.drop_first(), i - 1);
        assert(a.drop_first().skip(i - 1) =~= a.skip(i));
        assert(b.drop_first().skip(i - 1) =~= b.skip(i));
    }
}

proof fn lemma_worse_first_trans(a: (Seq<char>, int), b: (Seq<char>, int), c: (Seq<char>, int))
    requires
        worse_first(a, b),
        worse_first(b, c),
    ensures
        worse_first(a, c),
{
    if a.1 == b.1 && b.1 == c.1 {
        lemma_text_less_trans(a.0, b.0, c.0);
    }
}

proof fn lemma_worse_first_total(a: (Seq<char>, int), b: (Seq<char>, int))
    requires
        a.0 != b.0,
    ensures
        worse_first(a, b) || worse_first(b, a),
{
    lemma_text_less_total(a.0, b.0);
}

/// Two lists sorted worst first, holding the same entries, are the same list.
proof fn lemma_sorted_same_entries(a: Seq<(Seq<char>, int)>, b: Seq<(Seq<char>, int)>)
    requires
        forall|i: int, j: int| 0 <= i < j < a.len() ==> worse_first(#[trigger] a[i], #[trigger] a[j]),
        forall|i: int, j: int| 0 <= i < j < b.len() ==> worse_first(#[trigger] b[i], #[trigger] b[j]),
        forall|x: (Seq<char>, int)| a.contains(x) <==> b.contains(x),
    ensures
        a == b,
    decreases a.len() + b.len(),
{
    if a.len() == 0 || b.len() == 0 {
        if a.len() > 0 {
            assert(a.contains(a[0]));
        }
        if b.len() > 0 {
            assert(b.contains(b[0]));
        }
        assert(a =~= b);
    } else {
        let (a0, b0) = (a[0], b[0]);
        assert(a.contains(a0));
        assert(b.contains(b0));
        let j = choose|j: int| 0 <= j < b.len() && b[j] == a0;
        let i = choose|i: int| 0 <= i < a.len() && a[i] == b0;
        if i > 0 && j > 0 {
            assert(worse_first(a0, b0));
            assert(worse_first(b0, a0));
            lemma_worse_first_trans(a0, b0, a0);
            lemma_text_less_irrefl(a0.0);
        }
        assert(a0 == b0);
        let a1 = a.drop_first();
        let b1 = b.drop_first();
        assert forall|x: (Seq<char>, int)| a1.contains(x) <==> b1.contains(x) by {
            if a1.contains(x) {
                let k = choose|k: int| 0 <= k < a1.len() && a1[k] == x;
                assert(a[k + 1] == x);
                assert(worse_first(a0, x));
                lemma_text_less_irrefl(x.0);
                assert(x != a0);
                assert(b.contains(x));
                let m = choose|m: int| 0 <= m < b.len() && b[m] == x;
                assert(m != 0);
                assert(b1[m - 1] == x);
            }
            if b1.contains(x) {
                let k = choose|k: int| 0 <= k < b1.len() && b1[k] == x;
                assert(b[k + 1] == x);
                assert(worse_first(b0, x));
                lemma_text_less_irrefl(x.0);
                assert(x != b0);
                assert(a.contains(x));
                let m = choose|m: int| 0 <= m < a.len() && a[m] == x;
                assert(m != 0);
                assert(a1[m - 1] == x);
            }
        }
        assert forall|i: int, j: int| 0 <= i < j < a1.len() implies worse_first(#[trigger] a1[i], #[trigger] a1[j]) by {
            assert(a1[i] == a[i + 1] && a1[j] == a[j + 1]);
        }
        assert forall|i: int, j: int| 0 <= i < j < b1.len() implies worse_first(#[trigger] b1[i], #[trigger] b1[j]) by {
            assert(b1[i] == b[i + 1] && b1[j] == b[j + 1]);
        }
        lemma_sorted_same_entries(a1, b1);
        assert(a =~= seq![a0] + a1);
        assert(b =~= seq![b0] + b1);
    }
}

/// The list of weaknesses is fully decided by the words counted: two lists
/// that both tally the same words are the same list.
pub proof fn law_tally_is_unique(r1: Seq<(Seq<char>, int)>, r2: Seq<(Seq<char>, int)>, ws: Seq<Seq<char>>)
    requires
        is_tally(r1, ws),
        is_tally(r2, ws),
    ensures
        r1 == r2,
{
    assert forall|x: (Seq<char>, int)| r1.contains(x) implies r2.contains(x) by {
        let i = choose|i: int| 0 <= i < r1.len() && r1[i] == x;
        assert(r1[i].1 == count_of(ws, x.0) && x.1 > 0);
        lemma_count_found(ws, x.0);
        let m = choose|m: int| 0 <= m < ws.len() && ws[m] == x.0;
        assert(lists(r2, ws[m]));
        let j = choose|j: int| 0 <= j < r2.len() && (#[trigger] r2[j]).0 == ws[m];
        assert(r2[j].1 == count_of(ws, r2[j].0));
        assert(r2[j] == x);
    }
    assert forall|x: (Seq<char>, int)| r2.contains(x) implies r1.contains(x) by {
        let i = choose|i: int| 0 <= i < r2.len() && r2[i] == x;
        assert(r2[i].1 == count_of(ws, x.0) && x.1 > 0);
        lemma_count_found(ws, x.0);
        let m = choose|m: int| 0 <= m < ws.len() && ws[m] == x.0;
        assert(lists(r1, ws[m]));
        let j = choose|j: int| 0 <= j < r1.len() && (#[trigger] r1[j]).0 == ws[m];
        assert(r1[j].1 == count_of(ws, r1[j].0));
        assert(r1[j] == x);
    }
    lemma_sorted_same_entries(r1, r2);
}

/// Whether `a` sorts before `b` as strings do.
fn chars_less(a: &Vec<char>, b: &Vec<char>) -> (r: bool)
    ensures
        r == text_less(a@, b@),
{
    let mut i: usize = 0;
    while i < a.len() && i < b.len()
        invariant
            i <= a.len(),
            i <= b.len(),
            a@.take(i as int) =~= b@.take(i as int),
        decreases a.len() - i,
    {
        if a[i] != b[i] {
            proof {
                lemma_text_less_skip(a@, b@, i as int);
                assert(a@.skip(i as int)[0] == a@[i as int]);
                assert(b@.skip(i as int)[0] == b@[i as int]);
            }
            return a[i] < b[i];
        }
        proof {
            assert(a@.take(i + 1) =~= b@.take(i + 1)) by {
                assert forall|j: int| 0 <= j < i + 1 implies a@[j] == b@[j] by {
                    if j < i {
                        assert(a@.take(i as int)[j] == b@.take(i as int)[j]);
                    }
                }
            }
        }
        i += 1;
    }
    proof {
        lemma_text_less_skip(a@, b@, i as int);
    }
    i < b.len()
}

/// Whether the tag `ak` seen `an` times comes before the tag `bk` seen `bn`
/// times in the list of weaknesses.
fn ranks_before(ak: &Vec<char>, an: i64, bk: &Vec<char>, bn: i64) -> (r: bool)
    ensures
        r == worse_first((ak@, an as int), (bk@, bn as int)),
{
    an > bn || (an == bn && chars_less(ak, bk))
}

fn find_key(keys: &Vec<Vec<char>>, w: &Vec<char>) -> (r: Option<usize>)
    ensures
        match r {
            Some(j) => j < keys.len() && keys@[j as int]@ == w@,
            None => forall|a: int| 0 <= a < keys.len() ==> (#[trigger] keys@[a])@ != w@,
        },
{
    let mut j: usize = 0;
    while j < keys.len()
        invariant
            j <= keys.len(),
            forall|a: int| 0 <= a < j ==> (#[trigger] keys@[a])@ != w@,
        decreases keys.len() - j,
    {
        if same_chars(&keys[j], w) {
            return Some(j);
        }
        j += 1;
    }
    None
}

pub open spec fn pairs_of(keys: Seq<Vec<char>>, tallies: Seq<i64>) -> Seq<(Seq<char>, int)> {
    Seq::new(keys.len(), |a: int| (keys[a]@, tallies[a] as int))
}

/// Every word of every row, row after row.
fn all_words_of(rows: &Vec<String>) -> (r: Vec<Vec<char>>)
    ensures
        views_of(r@) == all_words(strings_view(rows@)),
{
    let ghost rv = strings_view(rows@);
    let mut ws: Vec<Vec<char>> = Vec::new();
    let mut i: usize = 0;
    while i < rows.len()
        invariant
            i <= rows.len(),
            rv == strings_view(rows@),
            views_of(ws@) == all_words(rv.take(i as int)),
        decreases rows.len() - i,
    {
        let mut more = split_words(&chars_of(rows[i].as_str()));
        let ghost before = views_of(ws@);
        let ghost add = views_of(more@);
        ws.append(&mut more);
        proof {
            assert(rv.take(i + 1).drop_last() =~= rv.take(i as int));
            assert(rv.take(i + 1).last() == rows@[i as int]@);
            assert(views_of(ws@) =~= before + add);
        }
        i += 1;
    }
    assert(rv.take(rows.len() as int) =~= rv);
    ws
}

/// Count the words: each distinct word once, in the order it first appears.
fn count_words(ws: &Vec<Vec<char>>) -> (r: (Vec<Vec<char>>, Vec<i64>))
    requires
        ws.len() < i64::MAX,
    ensures
        r.0.len() == r.1.len(),
        forall|a: int, b: int| 0 <= a < b < r.0.len() ==> r.0@[a]@ != r.0@[b]@,
        forall|a: int|
            0 <= a < r.0.len() ==> r.1@[a] == count_of(views_of(ws@), (#[trigger] r.0@[a])@)
                && r.1@[a] > 0,
        forall|m: int|
            0 <= m < ws.len() ==> exists|a: int|
                0 <= a < r.0.len() && (#[trigger] r.0@[a])@ == #[trigger] views_of(ws@)[m],
{
    let ghost wsv = views_of(ws@);
    let mut keys: Vec<Vec<char>> = Vec::new();
    let mut tallies: Vec<i64> = Vec::new();
    let mut k: usize = 0;
    while k < ws.len()
        invariant
            k <= ws.len(),
            ws.len() < i64::MAX,
            wsv == views_of(ws@),
            keys.len() == tallies.len(),
            forall|a: int, b: int| 0 <= a < b < keys.len() ==> keys@[a]@ != keys@[b]@,
            forall|a: int|
                0 <= a < keys.len() ==> tallies@[a] == count_of(
                    wsv.take(k as int),
                    (#[trigger] keys@[a])@,
                ) && tallies@[a] > 0,
            forall|m: int|
                0 <= m < k ==> exists|a: int|
                    0 <= a < keys.len() && (#[trigger] keys@[a])@ == #[trigger] wsv[m],
        decreases ws.len() - k,
    {
        let ghost pre = wsv.take(k as int);
        let ghost next = wsv.take(k + 1);
        let ghost w = wsv[k as int];
        proof {
            assert(next =~= pre.push(w));
            assert(ws@[k as int]@ == w);
        }
        let ghost old_keys = keys@;
        match find_key(&keys, &ws[k]) {
            Some(j) => {
                let t = tallies[j];
                proof {
                    lemma_count_le(pre, w);
                }
                tallies.set(j, t + 1);
                proof {
                    assert forall|a: int| 0 <= a < keys.len() implies tallies@[a] == count_of(
                        next,
                        (#[trigger] keys@[a])@,
                    ) && tallies@[a] > 0 by {
                        lemma_count_push(pre, w, keys@[a]@);
                    }
                    assert forall|m: int| 0 <= m < k + 1 implies exists|a: int|
                        0 <= a < keys.len() && (#[trigger] keys@[a])@ == #[trigger] wsv[m] by {
                        if m == k {
                            assert(keys@[j as int]@ == wsv[m]);
                        }
                    }
                }
            },
            None => {
                proof {
                    if count_of(pre, w) > 0 {
                        lemma_count_found(pre, w);
                        let m = choose|m: int| 0 <= m < pre.len() && pre[m] == w;
                        assert(wsv[m] == w);
                        let a = choose|a: int| 0 <= a < keys.len() && (#[trigger] keys@[a])@ == wsv[m];
                        assert(keys@[a]@ == w);
                    }
                }
                let key = copy_chars(&ws[k]);
                keys.push(key);
                tallies.push(1);
                proof {
                    assert forall|a: int| 0 <= a < keys.len() implies tallies@[a] == count_of(
                        next,
                        (#[trigger] keys@[a])@,
                    ) && tallies@[a] > 0 by {
                        lemma_count_push(pre, w, keys@[a]@);
                        if a < old_keys.len() {
                            assert(keys@[a] == old_keys[a]);
                        }
                    }
                    assert forall|m: int| 0 <= m < k + 1 implies exists|a: int|
                        0 <= a < keys.len() && (#[trigger] keys@[a])@ == #[trigger] wsv[m] by {
                        if m == k {
                            assert(keys@[old_keys.len() as int]@ == wsv[m]);
                        } else {
                            let a = choose|a: int|
                                0 <= a < old_keys.len() && (#[trigger] old_keys[a])@ == wsv[m];
                            assert(keys@[a] == old_keys[a]);
                        }
                    }
                }
            },
        }
        k += 1;
    }
    assert(wsv.take(ws.len() as int) =~= wsv);
    (keys, tallies)
}

/// Where a tag seen `n` times goes in a list sorted worst first.
fn insert_position(out_keys: &Vec<Vec<char>>, out_tallies: &Vec<i64>, key: &Vec<char>, n: i64) -> (p: usize)
    requires
        out_keys.len() == out_tallies.len(),
    ensures
        p <= out_keys.len(),
        forall|a: int|
            0 <= a < p ==> worse_first(
                #[trigger] pairs_of(out_keys@, out_tallies@)[a],
                (key@, n as int),
            ),
        p < out_keys.len() ==> !worse_first(pairs_of(out_keys@, out_tallies@)[p as int], (key@, n as int)),
{
    let ghost o = pairs_of(out_keys@, out_tallies@);
    let mut p: usize = 0;
    while p < out_keys.len()
        invariant
            p <= out_keys.len(),
            out_keys.len() == out_tallies.len(),
            o == pairs_of(out_keys@, out_tallies@),
            forall|a: int| 0 <= a < p ==> worse_first(#[trigger] o[a], (key@, n as int)),
        decreases out_keys.len() - p,
    {
        if !ranks_before(&out_keys[p], out_tallies[p], key, n) {
            return p;
        }
        p += 1;
    }
    p
}

/// Putting `x` at `p`, where `insert_position` says, keeps a list sorted worst
/// first.
proof fn lemma_insert_sorted(o: Seq<(Seq<char>, int)>, o2: Seq<(Seq<char>, int)>, x: (Seq<char>, int), p: int)
    requires
        0 <= p <= o.len(),
        o2.len() == o.len() + 1,
        forall|a: int| 0 <= a < p ==> o2[a] == o[a],
        o2[p] == x,
        forall|a: int| p < a < o2.len() ==> o2[a] == o[a - 1],
        forall|a: int| 0 <= a < p ==> worse_first(#[trigger] o[a], x),
        p < o.len() ==> !worse_first(o[p], x),
        forall|a: int| 0 <= a < o.len() ==> (#[trigger] o[a]).0 != x.0,
        forall|a: int, b: int| 0 <= a < b < o.len() ==> worse_first(#[trigger] o[a], #[trigger] o[b]),
    ensures
        forall|a: int, b: int| 0 <= a < b < o2.len() ==> worse_first(#[trigger] o2[a], #[trigger] o2[b]),
{
    if p < o.len() {
        lemma_worse_first_total(o[p], x);
    }
    assert forall|a: int, b: int| 0 <= a < b < o2.len() implies worse_first(#[trigger] o2[a], #[trigger] o2[b]) by {
        if b < p {
            assert(o2[a] == o[a] && o2[b] == o[b]);
        } else if b == p {
            assert(o2[a] == o[a]);
        } else if a < p {
            assert(o2[a] == o[a] && o2[b] == o[b - 1]);
        } else if a == p {
            assert(o2[b] == o[b - 1]);
            if b - 1 > p {
                assert(worse_first(o[p], o[b - 1]));
                lemma_worse_first_trans(x, o[p], o[b - 1]);
            }
        } else {
            assert(o2[a] == o[a - 1] && o2[b] == o[b - 1]);
        }
    }
}

/// How often each error tag occurs across the logged tag rows, worst first.
///
/// Every row holds space separated tags. The result lists each tag once with
/// its count, the most frequent first and equal counts in string order.
pub fn tag_counts(rows: &Vec<String>) -> (r: Vec<(String, i64)>)
    requires
        all_words(strings_view(rows@)).len() < i64::MAX,
    ensures
        is_tally(tally_view(r@), all_words(strings_view(rows@))),
{
    let ws = all_words_of(rows);
    let ghost wsv = views_of(ws@);
    let (keys, tallies) = count_words(&ws);
    let ghost src = pairs_of(keys@, tallies@);
    let n = keys.len();

    // Insertion sort into a fresh pair of vectors. What stands at `a` came
    // from `src[from[a]]`, and `src[c]` now stands at `to[c]`.
    let mut out_keys: Vec<Vec<char>> = Vec::new();
    let mut out_tallies: Vec<i64> = Vec::new();
    let ghost mut o: Seq<(Seq<char>, int)> = seq![];
    let ghost mut from: Seq<int> = seq![];
    let ghost mut to: Seq<int> = seq![];
    let mut i: usize = 0;
    while i < n
        invariant
            i <= n,
            n == keys.len(),
            keys.len() == tallies.len(),
            src == pairs_of(keys@, tallies@),
            forall|a: int, b: int| 0 <= a < b < keys.len() ==> keys@[a]@ != keys@[b]@,
            out_keys.len() == out_tallies.len(),
            out_keys.len() == i,
            o == pairs_of(out_keys@, out_tallies@),
            from.len() == i,
            to.len() == i,
            forall|a: int, b: int| 0 <= a < b < i ==> worse_first(#[trigger] o[a], #[trigger] o[b]),
            forall|a: int| 0 <= a < i ==> 0 <= #[trigger] from[a] < i && o[a] == src[from[a]],
            forall|c: int| 0 <= c < i ==> 0 <= #[trigger] to[c] < i && o[to[c]] == src[c],
        decreases n - i,
    {
        let ghost x = src[i as int];
        let ghost ok = out_keys@;
        let ghost ot = out_tallies@;
        let p = insert_position(&out_keys, &out_tallies, &keys[i], tallies[i]);
        let key = copy_chars(&keys[i]);
        let ghost kk = key;
        out_keys.insert(p, key);
        out_tallies.insert(p, tallies[i]);
        proof {
            ok.insert_ensures(p as int, kk);
            ot.insert_ensures(p as int, tallies@[i as int]);
            let o2 = pairs_of(out_keys@, out_tallies@);
            assert(o2.len() == i + 1);
            assert forall|a: int| 0 <= a < p implies o2[a] == o[a] by {
                assert(out_keys@[a] == ok[a]);
                assert(out_tallies@[a] == ot[a]);
            }
            assert(o2[p as int] == x);
            assert forall|a: int| p < a < o2.len() implies o2[a] == o[a - 1] by {
                assert(out_keys@[a] == ok[a - 1]);
                assert(out_tallies@[a] == ot[a - 1]);
            }
            assert forall|a: int| 0 <= a < i implies (#[trigger] o[a]).0 != x.0 by {
                assert(o[a] == src[from[a]]);
                assert(keys@[from[a]]@ != keys@[i as int]@);
            }
            lemma_insert_sorted(o, o2, x, p as int);
            let from2 = from.insert(p as int, i as int);
            from.insert_ensures(p as int, i as int);
            assert forall|a: int| 0 <= a < i + 1 implies 0 <= #[trigger] from2[a] < i + 1 && o2[a]
                == src[from2[a]] by {
                if a < p {
                    assert(from2[a] == from[a]);
                } else if a > p {
                    assert(from2[a] == from[a - 1]);
                }
            }
            let to2 = Seq::new(
                (i + 1) as nat,
                |c: int|
                    if c == i {
                        p as int
                    } else if to[c] >= p {
                        to[c] + 1
                    } else {
                        to[c]
                    },
            );
            assert forall|c: int| 0 <= c < i + 1 implies 0 <= #[trigger] to2[c] < i + 1 && o2[to2[c]]
                == src[c] by {
                if c < i {
                    assert(o[to[c]] == src[c]);
                }
            }
            o = o2;
            from = from2;
            to = to2;
        }
        i += 1;
    }

    let mut r: Vec<(String, i64)> = Vec::new();
    let mut a: usize = 0;
    while a < n
        invariant
            a <= n,
            out_keys.len() == n,
            out_tallies.len() == n,
            o == pairs_of(out_keys@, out_tallies@),
            tally_view(r@) =~= o.take(a as int),
        decreases n - a,
    {
        let ghost before = tally_view(r@);
        let s = string_of(&out_keys[a]);
        r.push((s, out_tallies[a]));
        proof {
            assert(tally_view(r@) =~= before.push((out_keys@[a as int]@, out_tallies@[a as int] as int)));
            assert(o.take(a + 1) =~= o.take(a as int).push(o[a as int]));
        }
        a += 1;
    }
    proof {
        assert(tally_view(r@) =~= o);
        assert forall|i: int| 0 <= i < o.len() implies (#[trigger] o[i]).1 == count_of(wsv, o[i].0)
            && o[i].1 > 0 by {
            let c = from[i];
            assert(o[i] == src[c]);
            assert(src[c] == (keys@[c]@, tallies@[c] as int));
        }
        assert forall|k: int| 0 <= k < wsv.len() implies lists(o, #[trigger] wsv[k]) by {
            let c = choose|c: int| 0 <= c < keys.len() && (#[trigger] keys@[c])@ == views_of(ws@)[k];
            assert(src[c].0 == wsv[k]);
            assert(o[to[c]] == src[c]);
            assert(0 <= to[c] < o.len() && o[to[c]].0 == wsv[k]);
        }
        assert(forall|a: int, b: int| 0 <= a < b < o.len() ==> worse_first(#[trigger] o[a], #[trigger] o[b]));
        assert(is_tally(o, wsv));
    }
    r
}

} // verus!
