//! What the request handlers decide, apart from the requests themselves.
//!
//! The client never receives an accept list. A sheet leaves the server with its
//! blanks reduced to ids, so the answers only exist on the server until the
//! sheet is checked. Review mode grades one item at a time for feedback and
//! grades the whole run again when it is finished, from the same raw answers,
//! so the server stays the authority on the result.

use vstd::prelude::*;

use crate::calendar::{day_text, format_day};
use crate::domain::{Level, Rating};
use crate::find::{first_where, lemma_first_where_at, lemma_first_where_none};
use crate::grade::{
    answers_view, counts_as_correct, grade_blank, grade_item_blanks, grade_verdict, item_results,
    law_also_accepted_answer_is_correct, sheet_results, tally, tallied, BlankResult, GradedSheet,
    ResultV, Verdict, VerdictV,
};
use crate::pack::{Pack, Topic, TopicV};
use crate::progress::{due_on, tally_view, TopicState, TopicStateV};
use crate::review::{expected, grade_item, item_rating, session, session_rating};
use crate::sheet::{
    accept_also_result, blank_at, find_blank, lemma_find_blank, sentence_initial, Blank, Item,
    ItemV, Segment, SegmentV, Sheet, SheetV,
};
use crate::text::{chars_of, same_chars};

verus! {

// ---------------------------------------------------------------- the sheet a browser sees

pub enum ClientSegmentV {
    Text(Seq<char>),
    Blank(Seq<char>),
}

pub struct ClientItemV {
    pub n: u32,
    pub segments: Seq<ClientSegmentV>,
    pub hint: Option<Seq<char>>,
}

pub struct ClientSheetV {
    pub sheet_id: i64,
    pub topic_id: Seq<char>,
    pub topic_title: Seq<char>,
    pub topic_category: Seq<char>,
    pub cefr: Level,
    pub items: Seq<ClientItemV>,
}

/// A segment as the browser sees it: text, or a blank reduced to its id.
#[derive(Debug)]
pub enum ClientSegment {
    Text { text: String },
    Blank { id: String },
}

impl View for ClientSegment {
    type V = ClientSegmentV;

    open spec fn view(&self) -> ClientSegmentV {
        match self {
            ClientSegment::Text { text } => ClientSegmentV::Text(text@),
            ClientSegment::Blank { id } => ClientSegmentV::Blank(id@),
        }
    }
}

#[derive(Debug)]
pub struct ClientItem {
    pub n: u32,
    pub segments: Vec<ClientSegment>,
    pub hint: Option<String>,
}

impl View for ClientItem {
    type V = ClientItemV;

    open spec fn view(&self) -> ClientItemV {
        ClientItemV {
            n: self.n,
            segments: self.segments@.map_values(|s: ClientSegment| s@),
            hint: match self.hint {
                Some(h) => Some(h@),
                None => None,
            },
        }
    }
}

/// A sheet as the browser sees it: the same sentences with the answers removed.
#[derive(Debug)]
pub struct ClientSheet {
    pub sheet_id: i64,
    pub topic_id: String,
    pub topic_title: String,
    pub topic_category: String,
    pub cefr: Level,
    pub items: Vec<ClientItem>,
}

impl View for ClientSheet {
    type V = ClientSheetV;

    open spec fn view(&self) -> ClientSheetV {
        ClientSheetV {
            sheet_id: self.sheet_id,
            topic_id: self.topic_id@,
            topic_title: self.topic_title@,
            topic_category: self.topic_category@,
            cefr: self.cefr,
            items: self.items@.map_values(|i: ClientItem| i@),
        }
    }
}

pub open spec fn client_segment(s: SegmentV) -> ClientSegmentV {
    match s {
        SegmentV::Text(t) => ClientSegmentV::Text(t),
        SegmentV::Blank(b) => ClientSegmentV::Blank(b.id),
    }
}

pub open spec fn client_item(it: ItemV) -> ClientItemV {
    ClientItemV {
        n: it.n,
        segments: it.segments.map_values(|s: SegmentV| client_segment(s)),
        hint: it.hint,
    }
}

/// The sheet stored under `sheet_id` as it is sent: its topic's title,
/// category and level, and every item with each blank reduced to its id.
pub open spec fn client_view(sheet_id: i64, s: SheetV, t: TopicV) -> ClientSheetV {
    ClientSheetV {
        sheet_id,
        topic_id: s.topic_id,
        topic_title: t.title,
        topic_category: t.category,
        cefr: t.cefr,
        items: s.items.map_values(|it: ItemV| client_item(it)),
    }
}

fn client_item_of(item: &Item) -> (r: ClientItem)
    ensures
        r@ == client_item(item@),
{
    let ghost segs = item@.segments;
    let mut segments: Vec<ClientSegment> = Vec::new();
    let mut k: usize = 0;
    while k < item.segments.len()
        invariant
            k <= item.segments.len(),
            segs == item@.segments,
            segments@.map_values(|s: ClientSegment| s@) =~= segs.take(k as int).map_values(
                |s: SegmentV| client_segment(s),
            ),
        decreases item.segments.len() - k,
    {
        let ghost before = segments@.map_values(|s: ClientSegment| s@);
        let seg = match &item.segments[k] {
            Segment::Text { text } => ClientSegment::Text { text: text.clone() },
            Segment::Blank(b) => ClientSegment::Blank { id: b.id.clone() },
        };
        proof {
            assert(seg@ == client_segment(segs[k as int]));
        }
        segments.push(seg);
        proof {
            assert(segments@.map_values(|s: ClientSegment| s@) =~= before.push(client_segment(segs[k as int])));
            assert(segs.take(k + 1).map_values(|s: SegmentV| client_segment(s)) =~= segs.take(
                k as int,
            ).map_values(|s: SegmentV| client_segment(s)).push(client_segment(segs[k as int])));
        }
        k += 1;
    }
    assert(segs.take(item.segments.len() as int) =~= segs);
    let hint = match &item.hint {
        Some(h) => Some(h.clone()),
        None => None,
    };
    ClientItem { n: item.n, segments, hint }
}

/// The sheet as it is sent to the browser, for the topic it belongs to.
pub fn client_sheet(sheet_id: i64, sheet: &Sheet, topic: &Topic) -> (r: ClientSheet)
    ensures
        r@ == client_view(sheet_id, sheet@, topic@),
{
    let ghost items = sheet@.items;
    let mut out: Vec<ClientItem> = Vec::new();
    let mut i: usize = 0;
    while i < sheet.items.len()
        invariant
            i <= sheet.items.len(),
            items == sheet@.items,
            out@.map_values(|c: ClientItem| c@) =~= items.take(i as int).map_values(
                |it: ItemV| client_item(it),
            ),
        decreases sheet.items.len() - i,
    {
        let ghost before = out@.map_values(|c: ClientItem| c@);
        let c = client_item_of(&sheet.items[i]);
        out.push(c);
        proof {
            assert(out@.map_values(|c: ClientItem| c@) =~= before.push(client_item(items[i as int])));
            assert(items.take(i + 1).map_values(|it: ItemV| client_item(it)) =~= items.take(
                i as int,
            ).map_values(|it: ItemV| client_item(it)).push(client_item(items[i as int])));
        }
        i += 1;
    }
    assert(items.take(sheet.items.len() as int) =~= items);
    ClientSheet {
        sheet_id,
        topic_id: sheet.topic_id.clone(),
        topic_title: topic.title.clone(),
        topic_category: topic.category.clone(),
        cefr: topic.cefr,
        items: out,
    }
}

/// Two sheets that differ at most in what their blanks accept and how they are
/// tagged.
pub open spec fn same_but_answers(a: SheetV, b: SheetV) -> bool {
    &&& a.topic_id == b.topic_id
    &&& a.items.len() == b.items.len()
    &&& forall|i: int|
        0 <= i < a.items.len() ==> {
            let x = #[trigger] a.items[i];
            let y = b.items[i];
            &&& x.n == y.n
            &&& x.hint == y.hint
            &&& x.segments.len() == y.segments.len()
            &&& forall|j: int|
                0 <= j < x.segments.len() ==> match (#[trigger] x.segments[j], y.segments[j]) {
                    (SegmentV::Text(s), SegmentV::Text(t)) => s == t,
                    (SegmentV::Blank(c), SegmentV::Blank(d)) => c.id == d.id,
                    _ => false,
                }
        }
}

/// The browser learns nothing of the answers: two sheets that differ only in
/// their accept lists and tags are sent exactly alike.
pub proof fn law_client_sheet_hides_answers(sheet_id: i64, a: SheetV, b: SheetV, t: TopicV)
    requires
        same_but_answers(a, b),
    ensures
        client_view(sheet_id, a, t) == client_view(sheet_id, b, t),
{
    let ca = a.items.map_values(|it: ItemV| client_item(it));
    let cb = b.items.map_values(|it: ItemV| client_item(it));
    assert forall|i: int| 0 <= i < ca.len() implies ca[i] == cb[i] by {
        let x = a.items[i];
        let y = b.items[i];
        let sx = x.segments.map_values(|s: SegmentV| client_segment(s));
        let sy = y.segments.map_values(|s: SegmentV| client_segment(s));
        assert forall|j: int| 0 <= j < sx.len() implies sx[j] == sy[j] by {
            assert(match (x.segments[j], y.segments[j]) {
                (SegmentV::Text(s), SegmentV::Text(t)) => s == t,
                (SegmentV::Blank(c), SegmentV::Blank(d)) => c.id == d.id,
                _ => false,
            });
        }
        assert(sx =~= sy);
    }
    assert(ca =~= cb);
}

// ---------------------------------------------------------------- one item

/// Every result in `rs` counts as correct.
pub open spec fn all_right(rs: Seq<ResultV>) -> bool {
    forall|i: int| 0 <= i < rs.len() ==> counts_as_correct(#[trigger] rs[i].verdict)
}

proof fn lemma_all_right_push(rs: Seq<ResultV>, k: int)
    requires
        0 <= k < rs.len(),
    ensures
        all_right(rs.take(k + 1)) == (all_right(rs.take(k)) && counts_as_correct(rs[k].verdict)),
{
    let t = rs.take(k + 1);
    let u = rs.take(k);
    if all_right(t) {
        assert forall|i: int| 0 <= i < u.len() implies counts_as_correct(#[trigger] u[i].verdict) by {
            assert(u[i] == t[i]);
        }
        assert(t[k] == rs[k]);
    }
    if all_right(u) && counts_as_correct(rs[k].verdict) {
        assert forall|i: int| 0 <= i < t.len() implies counts_as_correct(#[trigger] t[i].verdict) by {
            if i < k {
                assert(t[i] == u[i]);
            }
        }
    }
}

/// Grade every blank in one item. The item counts as right only if all of them do.
pub fn grade_one_item(item: &Item, answers: &Vec<(String, String)>) -> (r: (Vec<BlankResult>, bool))
    ensures
        r.0@.map_values(|x: BlankResult| x@) == item_results(item@, answers_view(answers@)),
        r.1 == all_right(item_results(item@, answers_view(answers@))),
{
    let results = grade_item_blanks(item, answers);
    let ghost rs = results@.map_values(|x: BlankResult| x@);
    let mut correct = true;
    let mut k: usize = 0;
    while k < results.len()
        invariant
            k <= results.len(),
            rs == results@.map_values(|x: BlankResult| x@),
            correct == all_right(rs.take(k as int)),
        decreases results.len() - k,
    {
        let ok = results[k].verdict.is_correct();
        proof {
            assert(rs[k as int] == results@[k as int]@);
            lemma_all_right_push(rs, k as int);
        }
        correct = correct && ok;
        k += 1;
    }
    assert(rs.take(results.len() as int) =~= rs);
    (results, correct)
}

/// The item an answer is for: the first with its number.
pub open spec fn item_numbered(items: Seq<ItemV>, n: u32) -> Option<int> {
    first_where(items, |it: ItemV| it.n == n)
}

fn find_item(sheet: &Sheet, n: u32) -> (r: Option<usize>)
    ensures
        match item_numbered(sheet@.items, n) {
            None => r is None,
            Some(i) => r matches Some(j) && j as int == i && 0 <= i < sheet@.items.len(),
        },
{
    let ghost items = sheet@.items;
    let ghost p = |it: ItemV| it.n == n;
    let mut k: usize = 0;
    while k < sheet.items.len()
        invariant
            k <= sheet.items.len(),
            items == sheet@.items,
            p == (|it: ItemV| it.n == n),
            forall|m: int| 0 <= m < k ==> !p(#[trigger] items[m]),
        decreases sheet.items.len() - k,
    {
        assert(items[k as int] == sheet.items@[k as int]@);
        if sheet.items[k].n == n {
            proof {
                lemma_first_where_at(items, p, k as int);
            }
            return Some(k);
        }
        k += 1;
    }
    proof {
        lemma_first_where_none(items, p);
    }
    None
}

pub struct ItemVerdictV {
    pub correct: bool,
    pub grade: Rating,
    pub results: Seq<ResultV>,
}

/// What one answered item earned, before the run is averaged.
#[derive(Debug)]
pub struct ItemVerdict {
    pub correct: bool,
    pub grade: Rating,
    pub results: Vec<BlankResult>,
}

impl View for ItemVerdict {
    type V = ItemVerdictV;

    open spec fn view(&self) -> ItemVerdictV {
        ItemVerdictV {
            correct: self.correct,
            grade: self.grade,
            results: self.results@.map_values(|x: BlankResult| x@),
        }
    }
}

/// The verdict on one item answered in `elapsed_ms`.
pub open spec fn verdict_on(it: ItemV, elapsed_ms: u32, answers: Seq<(Seq<char>, Seq<char>)>) -> ItemVerdictV {
    let rs = item_results(it, answers);
    ItemVerdictV {
        correct: all_right(rs),
        grade: item_rating(expected(it), elapsed_ms as int, all_right(rs)),
        results: rs,
    }
}

/// Grade one item as it is answered, for immediate feedback. None when the
/// sheet has no item with that number.
pub fn item_verdict(sheet: &Sheet, n: u32, elapsed_ms: u32, answers: &Vec<(String, String)>) -> (r: Option<ItemVerdict>)
    ensures
        match item_numbered(sheet@.items, n) {
            None => r is None,
            Some(i) => r matches Some(v) && v@ == verdict_on(sheet@.items[i], elapsed_ms, answers_view(answers@)),
        },
{
    match find_item(sheet, n) {
        None => None,
        Some(i) => {
            let item = &sheet.items[i];
            let (results, correct) = grade_one_item(item, answers);
            let grade = grade_item(item, elapsed_ms, correct);
            Some(ItemVerdict { correct, grade, results })
        },
    }
}

// ---------------------------------------------------------------- checking and accepting

/// A filled in sheet sent to be checked: blank id to what the user typed, and
/// optionally the rating the user chose instead of the one the score earns.
#[derive(Debug)]
pub struct CheckRequest {
    pub answers: Vec<(String, String)>,
    pub rating_override: Option<Rating>,
}

/// An answer the user says should count for a blank.
#[derive(Debug)]
pub struct AcceptRequest {
    pub blank_id: String,
    pub answer: String,
}

/// The rating a checked sheet is recorded with: the one the user chose, or
/// else the one its score earned.
pub fn rating_to_record(graded: &GradedSheet, rating_override: Option<Rating>) -> (r: Rating)
    ensures
        r == match rating_override {
            Some(x) => x,
            None => graded.rating,
        },
{
    match rating_override {
        Some(x) => x,
        None => graded.rating,
    }
}

pub struct AcceptResponseV {
    pub blank_id: Seq<char>,
    pub accept: Seq<Seq<char>>,
    pub verdict: VerdictV,
}

/// The blank's accept list after "also accept", and the verdict the answer
/// gets now.
#[derive(Debug)]
pub struct AcceptResponse {
    pub blank_id: String,
    pub accept: Vec<String>,
    pub verdict: Verdict,
}

impl View for AcceptResponse {
    type V = AcceptResponseV;

    open spec fn view(&self) -> AcceptResponseV {
        AcceptResponseV {
            blank_id: self.blank_id@,
            accept: self.accept@.map_values(|a: String| a@),
            verdict: self.verdict@,
        }
    }
}

/// What "also accept" answers when the blank exists in `s`.
pub open spec fn accept_response(s: SheetV, id: Seq<char>, answer: Seq<char>) -> AcceptResponseV {
    let s2 = accept_also_result(s, id, answer).0;
    let loc = find_blank(s.items, id)->0;
    let b = blank_at(s2.items, loc);
    AcceptResponseV {
        blank_id: id,
        accept: b.accept,
        verdict: grade_verdict(b, sentence_initial(s2.items[loc.0].segments, id), answer),
    }
}

/// "Also accept" moves no blank.
proof fn lemma_accept_keeps_place(s: SheetV, id: Seq<char>, answer: Seq<char>)
    requires
        find_blank(s.items, id) is Some,
    ensures
        find_blank(accept_also_result(s, id, answer).0.items, id) == find_blank(s.items, id),
{
    lemma_find_blank(s.items, id);
    let loc = find_blank(s.items, id)->0;
    let t = crate::text::trim(answer);
    if !(t.len() == 0 || blank_at(s.items, loc).accept.contains(t)) {
        crate::sheet::lemma_find_blank_after_accept(s, loc, t, id);
    }
}

/// Why "also accept" refused an answer.
#[derive(Debug, PartialEq, Eq)]
pub enum AcceptError {
    /// The sheet has no blank with that id.
    NoSuchBlank,
    /// The answer has nothing left once cleaned, so it could never be graded
    /// correct.
    EmptyAnswer,
}

/// Overrule the grader. With no blank of that id, or with an answer that has
/// nothing left once cleaned, the sheet stays as it is and the request is
/// refused with the reason. Otherwise the answer is added to the blank's accept
/// list, and the response carries the new list and the verdict the answer gets
/// now, which is always correct.
pub fn accept_answer(sheet: &mut Sheet, blank_id: &str, answer: &str) -> (r: Result<
    AcceptResponse,
    AcceptError,
>)
    ensures
        match find_blank(old(sheet)@.items, blank_id@) {
            None => r == Err::<AcceptResponse, AcceptError>(AcceptError::NoSuchBlank)
                && final(sheet)@ == old(sheet)@,
            Some(loc) => if crate::grade::clean(answer@).len() == 0 {
                &&& r == Err::<AcceptResponse, AcceptError>(AcceptError::EmptyAnswer)
                &&& final(sheet)@ == old(sheet)@
            } else {
                &&& final(sheet)@ == accept_also_result(old(sheet)@, blank_id@, answer@).0
                &&& r matches Ok(resp) && resp@ == accept_response(
                    old(sheet)@,
                    blank_id@,
                    answer@,
                )
            },
        },
        r matches Ok(resp) ==> resp@.verdict == VerdictV::Correct,
{
    let ghost before = sheet@;
    if sheet.blank(blank_id).is_none() {
        return Err(AcceptError::NoSuchBlank);
    }
    let cleaned = crate::grade::clean_chars(&chars_of(answer));
    if cleaned.len() == 0 {
        return Err(AcceptError::EmptyAnswer);
    }
    sheet.accept_also(blank_id, answer);
    proof {
        lemma_find_blank(before.items, blank_id@);
        law_also_accepted_answer_is_correct(before, blank_id@, answer@);
        lemma_accept_keeps_place(before, blank_id@, answer@);
    }
    let blank = match sheet.blank(blank_id) {
        Some(b) => b.clone(),
        None => {
            return Err(AcceptError::NoSuchBlank);
        },
    };
    let item = match sheet.item_of(blank_id) {
        Some(it) => it,
        None => {
            return Err(AcceptError::NoSuchBlank);
        },
    };
    proof {
        lemma_find_blank(sheet@.items, blank_id@);
    }
    let verdict = grade_blank(&blank, item, answer);
    Ok(AcceptResponse { blank_id: blank_id.to_owned(), accept: blank.accept, verdict })
}

// ---------------------------------------------------------------- a review run

pub struct AnswerV {
    pub n: u32,
    pub elapsed_ms: u32,
    pub answers: Seq<(Seq<char>, Seq<char>)>,
}

/// One item as the browser reports it: its number, the milliseconds from the
/// sentence appearing to the answer being sent, and blank id to what was typed.
#[derive(Debug)]
pub struct ItemAnswer {
    pub n: u32,
    pub elapsed_ms: u32,
    pub answers: Vec<(String, String)>,
}

impl View for ItemAnswer {
    type V = AnswerV;

    open spec fn view(&self) -> AnswerV {
        AnswerV { n: self.n, elapsed_ms: self.elapsed_ms, answers: answers_view(self.answers@) }
    }
}

pub open spec fn answers_of(attempts: Seq<ItemAnswer>) -> Seq<AnswerV> {
    attempts.map_values(|a: ItemAnswer| a@)
}

pub struct RunV {
    pub results: Seq<ResultV>,
    pub ratings: Seq<Rating>,
    pub elapsed: int,
}

/// A run regraded from its raw answers: for each answer, in the order sent,
/// the item with its number is graded again, rated on correctness and speed,
/// and its time counted. An answer for a number the sheet does not have is
/// passed over.
pub open spec fn run_of(items: Seq<ItemV>, attempts: Seq<AnswerV>) -> RunV
    decreases attempts.len(),
{
    if attempts.len() == 0 {
        RunV { results: seq![], ratings: seq![], elapsed: 0 }
    } else {
        let prev = run_of(items, attempts.drop_last());
        let a = attempts.last();
        match item_numbered(items, a.n) {
            None => prev,
            Some(i) => {
                let rs = item_results(items[i], a.answers);
                RunV {
                    results: prev.results + rs,
                    ratings: prev.ratings.push(item_rating(expected(items[i]), a.elapsed_ms as int, all_right(rs))),
                    elapsed: prev.elapsed + a.elapsed_ms,
                }
            },
        }
    }
}

proof fn lemma_run_elapsed_grows(items: Seq<ItemV>, s: Seq<AnswerV>, j: int)
    requires
        0 <= j <= s.len(),
    ensures
        0 <= run_of(items, s.take(j)).elapsed <= run_of(items, s).elapsed,
    decreases s.len(),
{
    if j == s.len() {
        assert(s.take(j) =~= s);
        lemma_run_elapsed_nonneg(items, s);
    } else {
        assert(s.take(j) =~= s.drop_last().take(j));
        lemma_run_elapsed_grows(items, s.drop_last(), j);
    }
}

proof fn lemma_run_elapsed_nonneg(items: Seq<ItemV>, s: Seq<AnswerV>)
    ensures
        run_of(items, s).elapsed >= 0,
    decreases s.len(),
{
    if s.len() > 0 {
        lemma_run_elapsed_nonneg(items, s.drop_last());
    }
}

/// A finished run: the results of every blank answered, the rating the topic
/// gets, and the time spent.
#[derive(Debug)]
pub struct RunOutcome {
    pub graded: GradedSheet,
    pub rating: Rating,
    pub elapsed_ms: i64,
}

/// Finish a run: regrade everything, and rate the topic on speed and mistakes
/// rather than on the raw score.
pub fn finish_run(sheet: &Sheet, attempts: &Vec<ItemAnswer>) -> (r: RunOutcome)
    requires
        run_of(sheet@.items, answers_of(attempts@)).elapsed <= i64::MAX,
    ensures
        r.graded@ == tallied(run_of(sheet@.items, answers_of(attempts@)).results),
        r.rating == session(run_of(sheet@.items, answers_of(attempts@)).ratings),
        r.elapsed_ms == run_of(sheet@.items, answers_of(attempts@)).elapsed,
{
    let ghost items = sheet@.items;
    let ghost av = answers_of(attempts@);
    let mut results: Vec<BlankResult> = Vec::new();
    let mut ratings: Vec<Rating> = Vec::new();
    let mut elapsed: i64 = 0;
    let mut k: usize = 0;
    while k < attempts.len()
        invariant
            k <= attempts.len(),
            items == sheet@.items,
            av == answers_of(attempts@),
            run_of(items, av).elapsed <= i64::MAX,
            results@.map_values(|x: BlankResult| x@) == run_of(items, av.take(k as int)).results,
            ratings@ == run_of(items, av.take(k as int)).ratings,
            elapsed == run_of(items, av.take(k as int)).elapsed,
        decreases attempts.len() - k,
    {
        let a = &attempts[k];
        proof {
            assert(av.take(k + 1).drop_last() =~= av.take(k as int));
            assert(av.take(k + 1).last() == a@);
            lemma_run_elapsed_grows(items, av, k + 1);
        }
        match find_item(sheet, a.n) {
            None => {},
            Some(i) => {
                let item = &sheet.items[i];
                let (mut rs, correct) = grade_one_item(item, &a.answers);
                let grade = grade_item(item, a.elapsed_ms, correct);
                let ghost before = results@.map_values(|x: BlankResult| x@);
                let ghost add = rs@.map_values(|x: BlankResult| x@);
                results.append(&mut rs);
                ratings.push(grade);
                elapsed = elapsed + a.elapsed_ms as i64;
                proof {
                    assert(results@.map_values(|x: BlankResult| x@) =~= before + add);
                }
            },
        }
        k += 1;
    }
    assert(av.take(attempts.len() as int) =~= av);
    let rating = session_rating(ratings.as_slice());
    let graded = tally(results);
    RunOutcome { graded, rating, elapsed_ms: elapsed }
}

/// The feedback given for one item as it is answered is what the finished
/// run records for it: the same results and the same item rating.
pub proof fn law_item_feedback_matches_the_run(items: Seq<ItemV>, a: AnswerV)
    requires
        item_numbered(items, a.n) is Some,
    ensures
        ({
            let v = verdict_on(items[item_numbered(items, a.n)->0], a.elapsed_ms, a.answers);
            let run = run_of(items, seq![a]);
            &&& run.results == v.results
            &&& run.ratings == seq![v.grade]
            &&& run.elapsed == a.elapsed_ms
        }),
{
    let s = seq![a];
    assert(s.drop_last() =~= Seq::<AnswerV>::empty());
    assert(run_of(items, Seq::<AnswerV>::empty()).results + item_results(
        items[item_numbered(items, a.n)->0],
        a.answers,
    ) =~= item_results(items[item_numbered(items, a.n)->0], a.answers));
    assert(Seq::<Rating>::empty().push(
        verdict_on(items[item_numbered(items, a.n)->0], a.elapsed_ms, a.answers).grade,
    ) =~= seq![verdict_on(items[item_numbered(items, a.n)->0], a.elapsed_ms, a.answers).grade]);
}

/// A finished run as the browser sends it.
#[derive(Debug)]
pub struct FinishRequest {
    pub items: Vec<ItemAnswer>,
}

/// The next thing to study, or nothing when the queue is empty, and how many
/// topics are still due after it.
#[derive(Debug)]
pub struct ReviewQueue {
    pub sheet: Option<ClientSheet>,
    pub remaining: i64,
}

/// The items' numbers are all different.
pub open spec fn numbers_distinct(items: Seq<ItemV>) -> bool {
    forall|a: int, b: int| 0 <= a < b < items.len() ==> (#[trigger] items[a]).n != (#[trigger] items[b]).n
}

/// A run that answers every item once, in order, is graded exactly as
/// checking the whole sheet with the same answers: review mode and sheet mode
/// agree on the result, blank for blank.
pub proof fn law_full_run_grades_like_the_sheet(
    items: Seq<ItemV>,
    attempts: Seq<AnswerV>,
    answers: Seq<(Seq<char>, Seq<char>)>,
)
    requires
        numbers_distinct(items),
        attempts.len() == items.len(),
        forall|k: int|
            0 <= k < attempts.len() ==> (#[trigger] attempts[k]).n == items[k].n && attempts[k].answers
                == answers,
    ensures
        run_of(items, attempts).results == sheet_results(items, answers),
        tallied(run_of(items, attempts).results) == crate::grade::graded(items, answers),
{
    lemma_full_run_prefix(items, attempts, answers, items.len() as int);
    assert(attempts.take(items.len() as int) =~= attempts);
    assert(items.take(items.len() as int) =~= items);
}

proof fn lemma_full_run_prefix(
    items: Seq<ItemV>,
    attempts: Seq<AnswerV>,
    answers: Seq<(Seq<char>, Seq<char>)>,
    j: int,
)
    requires
        numbers_distinct(items),
        attempts.len() == items.len(),
        forall|k: int|
            0 <= k < attempts.len() ==> (#[trigger] attempts[k]).n == items[k].n && attempts[k].answers
                == answers,
        0 <= j <= items.len(),
    ensures
        run_of(items, attempts.take(j)).results == sheet_results(items.take(j), answers),
    decreases j,
{
    if j == 0 {
        assert(attempts.take(0) =~= Seq::<AnswerV>::empty());
        assert(items.take(0) =~= Seq::<ItemV>::empty());
    } else {
        lemma_full_run_prefix(items, attempts, answers, j - 1);
        let p = |it: ItemV| it.n == items[j - 1].n;
        assert forall|m: int| 0 <= m < j - 1 implies !p(#[trigger] items[m]) by {
            assert(items[m].n != items[j - 1].n);
        }
        lemma_first_where_at(items, p, j - 1);
        assert(attempts.take(j).drop_last() =~= attempts.take(j - 1));
        assert(attempts.take(j).last() == attempts[j - 1]);
        assert(items.take(j).drop_last() =~= items.take(j - 1));
        assert(items.take(j).last() == items[j - 1]);
    }
}

// ---------------------------------------------------------------- topics

pub struct TopicViewV {
    pub id: Seq<char>,
    pub cefr: Level,
    pub stage: u32,
    pub category: Seq<char>,
    pub title: Seq<char>,
    pub goal: Seq<char>,
    pub due: Option<Seq<char>>,
    pub reps: int,
    pub lapses: int,
    pub is_due: bool,
    pub is_new: bool,
    pub has_sheet: bool,
}

/// A topic as the topic list shows it.
#[derive(Debug)]
pub struct TopicView {
    pub id: String,
    pub cefr: Level,
    pub stage: u32,
    pub category: String,
    pub title: String,
    pub goal: String,
    /// `None` until the topic has been studied once.
    pub due: Option<String>,
    pub reps: i64,
    pub lapses: i64,
    pub is_due: bool,
    pub is_new: bool,
    /// True when a sheet for this topic already exists.
    pub has_sheet: bool,
}

impl View for TopicView {
    type V = TopicViewV;

    open spec fn view(&self) -> TopicViewV {
        TopicViewV {
            id: self.id@,
            cefr: self.cefr,
            stage: self.stage,
            category: self.category@,
            title: self.title@,
            goal: self.goal@,
            due: match self.due {
                Some(d) => Some(d@),
                None => None,
            },
            reps: self.reps as int,
            lapses: self.lapses as int,
            is_due: self.is_due,
            is_new: self.is_new,
            has_sheet: self.has_sheet,
        }
    }
}

pub open spec fn states_view(states: Seq<TopicState>) -> Seq<TopicStateV> {
    states.map_values(|s: TopicState| s@)
}

/// The last stored state with this topic id: when ids repeat, the last one
/// stands, as in a map built from the rows in order.
pub open spec fn last_with(states: Seq<TopicStateV>, id: Seq<char>) -> Option<int>
    decreases states.len(),
{
    if states.len() == 0 {
        None
    } else if states.last().topic_id == id {
        Some(states.len() - 1)
    } else {
        last_with(states.drop_last(), id)
    }
}

pub open spec fn state_for(states: Seq<TopicStateV>, id: Seq<char>) -> Option<TopicStateV> {
    match last_with(states, id) {
        Some(i) => Some(states[i]),
        None => None,
    }
}

/// How a topic is listed, given its stored state if it has one. A topic that
/// was never studied is due and new, with no due date and no repetitions.
pub open spec fn topic_view_of(t: TopicV, s: Option<TopicStateV>, has_sheet: bool, today: int) -> TopicViewV {
    TopicViewV {
        id: t.id,
        cefr: t.cefr,
        stage: t.stage,
        category: t.category,
        title: t.title,
        goal: t.goal,
        due: match s {
            Some(st) => match st.due {
                Some(d) => day_text(d),
                None => None,
            },
            None => None,
        },
        reps: match s {
            Some(st) => st.reps,
            None => 0,
        },
        lapses: match s {
            Some(st) => st.lapses,
            None => 0,
        },
        is_due: match s {
            Some(st) => due_on(st, today),
            None => true,
        },
        is_new: match s {
            Some(st) => st.reps == 0,
            None => true,
        },
        has_sheet,
    }
}

proof fn lemma_last_with(states: Seq<TopicStateV>, id: Seq<char>)
    ensures
        last_with(states, id) matches Some(i) ==> 0 <= i < states.len() && states[i].topic_id == id,
    decreases states.len(),
{
    if states.len() > 0 && states.last().topic_id != id {
        lemma_last_with(states.drop_last(), id);
    }
}

fn find_state<'a>(states: &'a Vec<TopicState>, id: &String) -> (r: Option<&'a TopicState>)
    ensures
        match state_for(states_view(states@), id@) {
            None => r is None,
            Some(s) => r matches Some(x) && x@ == s,
        },
{
    let ghost sv = states_view(states@);
    let want = chars_of(id.as_str());
    let mut k: usize = states.len();
    assert(sv.take(k as int) =~= sv);
    while k > 0
        invariant
            k <= states.len(),
            sv == states_view(states@),
            want@ == id@,
            last_with(sv, id@) == last_with(sv.take(k as int), id@),
        decreases k,
    {
        let ghost t = sv.take(k as int);
        proof {
            assert(t.drop_last() =~= sv.take(k - 1));
            assert(t.last() == states@[k - 1]@);
        }
        if same_chars(&chars_of(states[k - 1].topic_id.as_str()), &want) {
            proof {
                lemma_last_with(sv, id@);
                assert(sv[k - 1] == states@[k - 1]@);
            }
            return Some(&states[k - 1]);
        }
        k -= 1;
    }
    proof {
        assert(sv.take(0) =~= Seq::<TopicStateV>::empty());
    }
    None
}

/// How one topic is listed.
pub fn topic_view(topic: &Topic, state: Option<&TopicState>, has_sheet: bool, today: i32) -> (r: TopicView)
    ensures
        r@ == topic_view_of(
            topic@,
            match state {
                Some(s) => Some(s@),
                None => None,
            },
            has_sheet,
            today as int,
        ),
{
    let (due, reps, lapses, is_due, is_new) = match state {
        Some(s) => {
            let due = match s.due {
                Some(d) => format_day(d),
                None => None,
            };
            (due, s.reps, s.lapses, s.is_due(today), s.reps == 0)
        },
        None => (None, 0, 0, true, true),
    };
    TopicView {
        id: topic.id.clone(),
        cefr: topic.cefr,
        stage: topic.stage,
        category: topic.category.clone(),
        title: topic.title.clone(),
        goal: topic.goal.clone(),
        due,
        reps,
        lapses,
        is_due,
        is_new,
        has_sheet,
    }
}

/// Every topic of the pack as the topic list shows it, in teaching order.
/// `has_sheet[k]` says whether topic `k` has a sheet yet.
pub fn topic_views(pack: &Pack, states: &Vec<TopicState>, has_sheet: &Vec<bool>, today: i32) -> (r: Vec<TopicView>)
    requires
        has_sheet.len() == pack@.topics.len(),
    ensures
        r@.len() == pack@.topics.len(),
        forall|k: int|
            0 <= k < r@.len() ==> (#[trigger] r@[k])@ == topic_view_of(
                pack@.topics[k],
                state_for(states_view(states@), pack@.topics[k].id),
                has_sheet@[k],
                today as int,
            ),
{
    let ghost topics = pack@.topics;
    let mut out: Vec<TopicView> = Vec::new();
    let mut k: usize = 0;
    while k < pack.topics.len()
        invariant
            k <= pack.topics.len(),
            topics == pack@.topics,
            has_sheet.len() == topics.len(),
            out@.len() == k,
            forall|m: int|
                0 <= m < k ==> (#[trigger] out@[m])@ == topic_view_of(
                    topics[m],
                    state_for(states_view(states@), topics[m].id),
                    has_sheet@[m],
                    today as int,
                ),
        decreases pack.topics.len() - k,
    {
        let topic = &pack.topics[k];
        assert(topic@ == topics[k as int]);
        let s = find_state(states, &topic.id);
        let v = topic_view(topic, s, has_sheet[k], today);
        out.push(v);
        k += 1;
    }
    out
}

/// The topics waiting to be studied today: due, and with a sheet to study.
pub open spec fn waiting(vs: Seq<TopicViewV>) -> Seq<TopicViewV>
    decreases vs.len(),
{
    if vs.len() == 0 {
        seq![]
    } else if vs.last().is_due && vs.last().has_sheet {
        waiting(vs.drop_last()).push(vs.last())
    } else {
        waiting(vs.drop_last())
    }
}

pub open spec fn views_view(vs: Seq<TopicView>) -> Seq<TopicViewV> {
    vs.map_values(|v: TopicView| v@)
}

/// Topics that are due today and have a sheet, in the order given.
pub fn today_queue(views: Vec<TopicView>) -> (r: Vec<TopicView>)
    ensures
        views_view(r@) == waiting(views_view(views@)),
{
    let ghost vv = views_view(views@);
    let mut rest = views;
    let mut out: Vec<TopicView> = Vec::new();
    let ghost mut k: int = 0;
    while rest.len() > 0
        invariant
            0 <= k <= vv.len(),
            views_view(rest@) == vv.skip(k),
            views_view(out@) == waiting(vv.take(k)),
        decreases rest.len(),
    {
        let ghost before = rest@;
        proof {
            assert(views_view(before).len() == before.len());
            assert(k < vv.len());
            assert(views_view(before)[0] == vv[k]);
        }
        let v = rest.remove(0);
        proof {
            assert(v@ == views_view(before)[0]);
            assert(v@ == vv[k]);
            assert(rest@ =~= before.subrange(1, before.len() as int));
            assert forall|j: int| 0 <= j < rest@.len() implies views_view(rest@)[j] == vv.skip(k + 1)[j] by {
                assert(rest@[j] == before[j + 1]);
                assert(views_view(before)[j + 1] == vv.skip(k)[j + 1]);
            }
            assert(views_view(rest@) =~= vv.skip(k + 1));
            assert(vv.take(k + 1).drop_last() =~= vv.take(k));
            assert(vv.take(k + 1).last() == vv[k]);
        }
        if v.is_due && v.has_sheet {
            let ghost o = views_view(out@);
            out.push(v);
            proof {
                assert(views_view(out@) =~= o.push(vv[k]));
            }
        }
        proof {
            k = k + 1;
        }
    }
    proof {
        assert(vv.take(k) =~= vv);
    }
    out
}

/// The next topic to study: the first one waiting, and how many wait after it.
pub fn next_due(views: Vec<TopicView>) -> (r: (Option<TopicView>, usize))
    ensures
        waiting(views_view(views@)).len() == 0 ==> r.0 is None && r.1 == 0,
        waiting(views_view(views@)).len() > 0 ==> (r.0 matches Some(v) && v@ == waiting(
            views_view(views@),
        )[0] && r.1 == waiting(views_view(views@)).len() - 1),
{
    let mut queue = today_queue(views);
    if queue.len() == 0 {
        (None, 0)
    } else {
        let remaining = queue.len() - 1;
        let ghost q = queue@;
        let first = queue.remove(0);
        proof {
            assert(views_view(q)[0] == q[0]@);
        }
        (Some(first), remaining)
    }
}

// ---------------------------------------------------------------- weaknesses

/// An error tag and how often it came up.
#[derive(Debug)]
pub struct Weakness {
    pub tag: String,
    pub count: i64,
}

pub open spec fn weakness_view(ws: Seq<Weakness>) -> Seq<(Seq<char>, int)> {
    ws.map_values(|w: Weakness| (w.tag@, w.count as int))
}

/// Tag counts as the list of weaknesses, in the same order.
pub fn weaknesses(counts: &Vec<(String, i64)>) -> (r: Vec<Weakness>)
    ensures
        weakness_view(r@) == tally_view(counts@),
{
    let ghost cv = tally_view(counts@);
    let mut out: Vec<Weakness> = Vec::new();
    let mut k: usize = 0;
    while k < counts.len()
        invariant
            k <= counts.len(),
            cv == tally_view(counts@),
            weakness_view(out@) =~= cv.take(k as int),
        decreases counts.len() - k,
    {
        let ghost before = weakness_view(out@);
        out.push(Weakness { tag: counts[k].0.clone(), count: counts[k].1 });
        proof {
            assert(weakness_view(out@) =~= before.push(cv[k as int]));
            assert(cv.take(k + 1) =~= cv.take(k as int).push(cv[k as int]));
        }
        k += 1;
    }
    assert(cv.take(counts.len() as int) =~= cv);
    out
}

} // verus!
