//! The exercise unit: one topic, twenty items.
//!
//! A sheet is validated before it is ever stored. An invalid sheet is thrown
//! away and regenerated, never repaired at read time.

use vstd::prelude::*;

use crate::domain::ErrorTag;
use crate::find::{
    first_some, first_where, lemma_first_some_found, lemma_first_where,
    lemma_first_where_at, lemma_first_where_none,
};
use crate::text::{
    all_space, blank_chars, chars_of, decimal, decimal_chars, is_alnum_char, join_spaced,
    lowercase_chars, lowercase_of, alnum_char, push_chars, push_str, same_chars, string_of,
    trim, trim_chars,
};

verus! {

/// Every sheet holds exactly this many items.
pub const ITEMS_PER_SHEET: usize = 20;

// ---------------------------------------------------------------- models

/// What a blank is: its id, every accepted answer, and the tags it carries.
pub struct BlankV {
    pub id: Seq<char>,
    pub accept: Seq<Seq<char>>,
    pub tags: Seq<(crate::domain::ErrorKind, Seq<char>)>,
}

pub enum SegmentV {
    Text(Seq<char>),
    Blank(BlankV),
}

pub struct ItemV {
    pub n: u32,
    pub segments: Seq<SegmentV>,
    pub hint: Option<Seq<char>>,
}

pub struct SheetV {
    pub topic_id: Seq<char>,
    pub language: Seq<char>,
    pub items: Seq<ItemV>,
}

// ---------------------------------------------------------------- types

/// One gap in a sentence.
#[derive(Debug, PartialEq)]
pub struct Blank {
    /// Unique inside the sheet, for example `3a`.
    pub id: String,
    /// Every answer counted as correct. Always a list, never a single string,
    /// because "also accept" has to be able to extend it forever.
    pub accept: Vec<String>,
    /// What this blank tests, written by the generator, not inferred later.
    pub tags: Vec<ErrorTag>,
}

impl View for Blank {
    type V = BlankV;

    open spec fn view(&self) -> BlankV {
        BlankV {
            id: self.id@,
            accept: self.accept@.map_values(|a: String| a@),
            tags: self.tags@.map_values(|t: ErrorTag| t@),
        }
    }
}

impl Clone for Blank {
    fn clone(&self) -> (r: Self)
        ensures
            r@ == self@,
    {
        let accept = self.accept.clone();
        let tags = self.tags.clone();
        proof {
            assert forall|i: int| 0 <= i < accept@.len() implies accept@[i] == self.accept@[i] by {
                assert(vstd::pervasive::cloned(self.accept@[i], accept@[i]));
            }
            assert forall|i: int| 0 <= i < tags@.len() implies tags@[i] == self.tags@[i] by {
                assert(vstd::pervasive::cloned(self.tags@[i], tags@[i]));
            }
            assert(accept@ =~= self.accept@);
            assert(tags@ =~= self.tags@);
        }
        Blank { id: self.id.clone(), accept, tags }
    }
}

/// A sentence is a run of visible text and gaps.
#[derive(Debug, PartialEq)]
pub enum Segment {
    Text { text: String },
    Blank(Blank),
}

impl View for Segment {
    type V = SegmentV;

    open spec fn view(&self) -> SegmentV {
        match self {
            Segment::Text { text } => SegmentV::Text(text@),
            Segment::Blank(b) => SegmentV::Blank(b@),
        }
    }
}

#[derive(Debug, PartialEq)]
pub struct Item {
    /// 1 to 20, in order.
    pub n: u32,
    pub segments: Vec<Segment>,
    /// The infinitives or cue words shown in brackets after the sentence.
    pub hint: Option<String>,
}

impl View for Item {
    type V = ItemV;

    open spec fn view(&self) -> ItemV {
        ItemV {
            n: self.n,
            segments: self.segments@.map_values(|s: Segment| s@),
            hint: match self.hint {
                Some(h) => Some(h@),
                None => None,
            },
        }
    }
}

#[derive(Debug, PartialEq)]
pub struct Sheet {
    pub topic_id: String,
    pub language: String,
    pub items: Vec<Item>,
}

impl View for Sheet {
    type V = SheetV;

    open spec fn view(&self) -> SheetV {
        SheetV {
            topic_id: self.topic_id@,
            language: self.language@,
            items: self.items@.map_values(|i: Item| i@),
        }
    }
}

/// Why a sheet was refused.
#[derive(Debug, PartialEq)]
pub enum SheetError {
    WrongItemCount(usize),
    ItemWithoutBlank { item: u32 },
    ItemWithoutText { item: u32 },
    EmptyAcceptList { blank: String },
    EmptyAnswer { blank: String },
    DuplicateBlankId { blank: String },
    LeakedAnswer { item: u32, answer: String },
    BadItemNumber { found: u32, expected: u32 },
}

pub enum SheetProblem {
    WrongItemCount(nat),
    ItemWithoutBlank(u32),
    ItemWithoutText(u32),
    EmptyAcceptList(Seq<char>),
    EmptyAnswer(Seq<char>),
    DuplicateBlankId(Seq<char>),
    LeakedAnswer(u32, Seq<char>),
    BadItemNumber(u32, u32),
}

impl View for SheetError {
    type V = SheetProblem;

    open spec fn view(&self) -> SheetProblem {
        match self {
            SheetError::WrongItemCount(n) => SheetProblem::WrongItemCount(*n as nat),
            SheetError::ItemWithoutBlank { item } => SheetProblem::ItemWithoutBlank(*item),
            SheetError::ItemWithoutText { item } => SheetProblem::ItemWithoutText(*item),
            SheetError::EmptyAcceptList { blank } => SheetProblem::EmptyAcceptList(blank@),
            SheetError::EmptyAnswer { blank } => SheetProblem::EmptyAnswer(blank@),
            SheetError::DuplicateBlankId { blank } => SheetProblem::DuplicateBlankId(blank@),
            SheetError::LeakedAnswer { item, answer } => SheetProblem::LeakedAnswer(*item, answer@),
            SheetError::BadItemNumber { found, expected } => SheetProblem::BadItemNumber(
                *found,
                *expected,
            ),
        }
    }
}

/// What a refused sheet is told.
pub open spec fn sheet_error_text(p: SheetProblem) -> Seq<char> {
    match p {
        SheetProblem::WrongItemCount(n) => "sheet must hold exactly "@ + decimal(ITEMS_PER_SHEET as nat)
            + " items, found "@ + decimal(n),
        SheetProblem::ItemWithoutBlank(item) => "item "@ + decimal(item as nat) + " has no blank"@,
        SheetProblem::ItemWithoutText(item) => "item "@ + decimal(item as nat) + " has no visible text"@,
        SheetProblem::EmptyAcceptList(b) => "blank `"@ + b + "` has an empty accept list"@,
        SheetProblem::EmptyAnswer(b) => "blank `"@ + b + "` accepts an empty answer"@,
        SheetProblem::DuplicateBlankId(b) => "duplicate blank id `"@ + b + "`"@,
        SheetProblem::LeakedAnswer(item, a) => "item "@ + decimal(item as nat) + " leaks the answer `"@ + a
            + "` in its visible text"@,
        SheetProblem::BadItemNumber(found, expected) => "item numbers must run 1.."@ + decimal(
            ITEMS_PER_SHEET as nat,
        ) + ", found "@ + decimal(found as nat) + " where "@ + decimal(expected as nat) + " was expected"@,
    }
}

impl SheetError {
    /// The message for this refusal.
    pub fn to_string(&self) -> (r: String)
        ensures
            r@ == sheet_error_text(self@),
    {
        let mut m: Vec<char> = Vec::new();
        match self {
            SheetError::WrongItemCount(n) => {
                push_str(&mut m, "sheet must hold exactly ");
                push_chars(&mut m, &decimal_chars(ITEMS_PER_SHEET as u64));
                push_str(&mut m, " items, found ");
                push_chars(&mut m, &decimal_chars(*n as u64));
            },
            SheetError::ItemWithoutBlank { item } => {
                push_str(&mut m, "item ");
                push_chars(&mut m, &decimal_chars(*item as u64));
                push_str(&mut m, " has no blank");
            },
            SheetError::ItemWithoutText { item } => {
                push_str(&mut m, "item ");
                push_chars(&mut m, &decimal_chars(*item as u64));
                push_str(&mut m, " has no visible text");
            },
            SheetError::EmptyAcceptList { blank } => {
                push_str(&mut m, "blank `");
                push_str(&mut m, blank.as_str());
                push_str(&mut m, "` has an empty accept list");
            },
            SheetError::EmptyAnswer { blank } => {
                push_str(&mut m, "blank `");
                push_str(&mut m, blank.as_str());
                push_str(&mut m, "` accepts an empty answer");
            },
            SheetError::DuplicateBlankId { blank } => {
                push_str(&mut m, "duplicate blank id `");
                push_str(&mut m, blank.as_str());
                push_str(&mut m, "`");
            },
            SheetError::LeakedAnswer { item, answer } => {
                push_str(&mut m, "item ");
                push_chars(&mut m, &decimal_chars(*item as u64));
                push_str(&mut m, " leaks the answer `");
                push_str(&mut m, answer.as_str());
                push_str(&mut m, "` in its visible text");
            },
            SheetError::BadItemNumber { found, expected } => {
                push_str(&mut m, "item numbers must run 1..");
                push_chars(&mut m, &decimal_chars(ITEMS_PER_SHEET as u64));
                push_str(&mut m, ", found ");
                push_chars(&mut m, &decimal_chars(*found as u64));
                push_str(&mut m, " where ");
                push_chars(&mut m, &decimal_chars(*expected as u64));
                push_str(&mut m, " was expected");
            },
        }
        proof {
            assert(m@ =~= sheet_error_text(self@));
        }
        string_of(&m)
    }
}

// ---------------------------------------------------------------- sentence structure

/// The answer shown to the user when they got it wrong: the first accepted one.
pub open spec fn canonical(b: BlankV) -> Seq<char> {
    if b.accept.len() > 0 {
        b.accept[0]
    } else {
        seq![]
    }
}

/// The blanks of a sentence, in order.
pub open spec fn blanks_of(segs: Seq<SegmentV>) -> Seq<BlankV>
    decreases segs.len(),
{
    if segs.len() == 0 {
        seq![]
    } else {
        match segs.last() {
            SegmentV::Blank(b) => blanks_of(segs.drop_last()).push(b),
            SegmentV::Text(_) => blanks_of(segs.drop_last()),
        }
    }
}

/// The pieces of visible text of a sentence, in order.
pub open spec fn texts_of(segs: Seq<SegmentV>) -> Seq<Seq<char>>
    decreases segs.len(),
{
    if segs.len() == 0 {
        seq![]
    } else {
        match segs.last() {
            SegmentV::Text(t) => texts_of(segs.drop_last()).push(t),
            SegmentV::Blank(_) => texts_of(segs.drop_last()),
        }
    }
}

/// The visible text of a sentence: its text pieces joined by single spaces.
pub open spec fn visible(segs: Seq<SegmentV>) -> Seq<char> {
    join_spaced(texts_of(segs))
}

/// The blank `id` opens the sentence: nothing but whitespace comes before it.
pub open spec fn sentence_initial(segs: Seq<SegmentV>, id: Seq<char>) -> bool {
    exists|k: int|
        0 <= k < segs.len() && has_blank_id(#[trigger] segs[k], id) && forall|j: int|
            0 <= j < k ==> is_space_text(#[trigger] segs[j])
}

/// A piece of text that is nothing but whitespace.
pub open spec fn is_space_text(s: SegmentV) -> bool {
    s matches SegmentV::Text(t) && all_space(t)
}

pub open spec fn has_blank_id(s: SegmentV, id: Seq<char>) -> bool {
    s matches SegmentV::Blank(b) && b.id == id
}

pub open spec fn item_has_blank(it: ItemV, id: Seq<char>) -> bool {
    exists|j: int| 0 <= j < it.segments.len() && has_blank_id(#[trigger] it.segments[j], id)
}

/// Where the first blank with this id sits: its item and its segment.
pub open spec fn find_blank(items: Seq<ItemV>, id: Seq<char>) -> Option<(int, int)> {
    match first_where(items, |it: ItemV| item_has_blank(it, id)) {
        None => None,
        Some(i) => match first_where(items[i].segments, |s: SegmentV| has_blank_id(s, id)) {
            Some(j) => Some((i, j)),
            None => None,
        },
    }
}

/// The blank a located segment holds.
pub open spec fn blank_at(items: Seq<ItemV>, loc: (int, int)) -> BlankV {
    match items[loc.0].segments[loc.1] {
        SegmentV::Blank(b) => b,
        SegmentV::Text(_) => BlankV { id: seq![], accept: seq![], tags: seq![] },
    }
}

// ---------------------------------------------------------------- leaks

/// A character that ends a word when looking for leaked answers.
pub open spec fn is_sep(c: char) -> bool {
    !is_alnum_char(c) && c != '\'' && c != '-'
}

/// `s[i..j]` is one of the pieces `s` splits into at separators.
pub open spec fn word_at(s: Seq<char>, i: int, j: int) -> bool {
    &&& 0 <= i <= j <= s.len()
    &&& (i == 0 || is_sep(s[i - 1]))
    &&& (j == s.len() || is_sep(s[j]))
    &&& forall|k: int| i <= k < j ==> !is_sep(#[trigger] s[k])
}

/// Whether `w` appears as a whole word in `s`.
///
/// Substring matching alone would be useless here, since "war" sits inside
/// "warten" and would flag a perfectly good item.
pub open spec fn leaks(s: Seq<char>, w: Seq<char>) -> bool {
    exists|i: int, j: int| #[trigger] word_at(s, i, j) && s.subrange(i, j) == w
}

fn sep(c: char) -> (r: bool)
    ensures
        r == is_sep(c),
{
    !alnum_char(c) && c != '\'' && c != '-'
}

fn piece_is(s: &Vec<char>, from: usize, to: usize, w: &Vec<char>) -> (r: bool)
    requires
        from <= to <= s.len(),
    ensures
        r == (s@.subrange(from as int, to as int) == w@),
{
    if to - from != w.len() {
        return false;
    }
    let mut k: usize = 0;
    while k < w.len()
        invariant
            to - from == w.len(),
            from <= to <= s.len(),
            k <= w.len(),
            forall|m: int| 0 <= m < k ==> s@[from + m] == w@[m],
        decreases w.len() - k,
    {
        if s[from + k] != w[k] {
            return false;
        }
        k += 1;
    }
    assert(s@.subrange(from as int, to as int) =~= w@);
    true
}

/// Which characters of `s` end a word.
pub open spec fn sep_marks(s: Seq<char>) -> Seq<bool> {
    Seq::new(s.len(), |k: int| is_sep(s[k]))
}

/// Positions `i..j` are one of the pieces a text splits into, where `marks[k]`
/// says whether character `k` ends a word.
pub open spec fn word_between(marks: Seq<bool>, i: int, j: int) -> bool {
    &&& 0 <= i <= j <= marks.len()
    &&& (i == 0 || marks[i - 1])
    &&& (j == marks.len() || marks[j])
    &&& forall|k: int| i <= k < j ==> !#[trigger] marks[k]
}

/// Whether `w` appears as a whole word in `s`, with the characters that end a
/// word marked in `marks`.
pub open spec fn leaks_marked(s: Seq<char>, w: Seq<char>, marks: Seq<bool>) -> bool {
    exists|i: int, j: int| #[trigger] word_between(marks, i, j) && s.subrange(i, j) == w
}

/// With the true marks, `leaks_marked` is `leaks`.
pub proof fn lemma_leaks_marked(s: Seq<char>, w: Seq<char>)
    ensures
        leaks_marked(s, w, sep_marks(s)) == leaks(s, w),
{
    let m = sep_marks(s);
    if leaks(s, w) {
        let (i, j) = choose|i: int, j: int| #[trigger] word_at(s, i, j) && s.subrange(i, j) == w;
        assert forall|k: int| i <= k < j implies !#[trigger] m[k] by {
            assert(!is_sep(s[k]));
        }
        assert(word_between(m, i, j));
    }
    if leaks_marked(s, w, m) {
        let (i, j) = choose|i: int, j: int| #[trigger] word_between(m, i, j) && s.subrange(i, j) == w;
        assert forall|k: int| i <= k < j implies !is_sep(#[trigger] s[k]) by {
            assert(!m[k]);
        }
        assert(word_at(s, i, j));
    }
}

/// Whether an answer appears as a whole word in a text, with the characters
/// that end a word marked in `marks`.
#[verifier::loop_isolation(false)]
pub fn leaks_with(visible_lower: &Vec<char>, answer_lower: &Vec<char>, marks: &Vec<bool>) -> (r: bool)
    requires
        marks.len() == visible_lower.len(),
    ensures
        r == leaks_marked(visible_lower@, answer_lower@, marks@),
{
    let s = visible_lower;
    let w = answer_lower;
    let ghost ms = marks@;
    let mut start: usize = 0;
    let mut k: usize = 0;
    while k < s.len()
        invariant
            start <= k <= s.len(),
            start == 0 || ms[start - 1],
            forall|m: int| start <= m < k ==> !#[trigger] ms[m],
            forall|i: int, j: int|
                #![trigger word_between(ms, i, j)]
                j < k && word_between(ms, i, j) ==> s@.subrange(i, j) != w@,
        decreases s.len() - k,
    {
        if marks[k] {
            assert(word_between(ms, start as int, k as int));
            if piece_is(s, start, k, w) {
                assert(word_between(ms, start as int, k as int) && s@.subrange(start as int, k as int)
                    == w@);
                return true;
            }
            assert forall|i: int, j: int|
                #![trigger word_between(ms, i, j)]
                j < k + 1 && word_between(ms, i, j) implies s@.subrange(i, j) != w@ by {
                if j == k {
                    if i < start {
                        assert(!ms[start - 1]);
                    } else if i > start {
                        assert(!ms[i - 1]);
                    }
                }
            }
            start = k + 1;
        } else {
            assert forall|i: int, j: int|
                #![trigger word_between(ms, i, j)]
                j < k + 1 && word_between(ms, i, j) implies s@.subrange(i, j) != w@ by {
                if j == k {
                    assert(ms[j]);
                }
            }
        }
        k += 1;
    }
    let n = s.len();
    assert(word_between(ms, start as int, n as int));
    if piece_is(s, start, n, w) {
        assert(word_between(ms, start as int, n as int) && s@.subrange(start as int, n as int) == w@);
        return true;
    }
    assert forall|i: int, j: int| #[trigger] word_between(ms, i, j) implies s@.subrange(i, j) != w@ by {
        if j == n {
            if i < start {
                assert(!ms[start - 1]);
            } else if i > start {
                assert(!ms[i - 1]);
            }
        }
    }
    false
}

/// Whether an answer appears as a whole word in the visible part of the sentence.
pub fn leaks_in(visible_lower: &Vec<char>, answer_lower: &Vec<char>) -> (r: bool)
    ensures
        r == leaks(visible_lower@, answer_lower@),
{
    let mut marks: Vec<bool> = Vec::new();
    let mut k: usize = 0;
    while k < visible_lower.len()
        invariant
            k <= visible_lower.len(),
            marks@ =~= sep_marks(visible_lower@).take(k as int),
        decreases visible_lower.len() - k,
    {
        marks.push(sep(visible_lower[k]));
        k += 1;
    }
    assert(marks@ =~= sep_marks(visible_lower@));
    proof {
        lemma_leaks_marked(visible_lower@, answer_lower@);
    }
    leaks_with(visible_lower, answer_lower, &marks)
}

// ---------------------------------------------------------------- validation

/// The ids of every blank, item by item, in reading order.
pub open spec fn flat_ids(items: Seq<ItemV>) -> Seq<Seq<char>>
    decreases items.len(),
{
    if items.len() == 0 {
        seq![]
    } else {
        flat_ids(items.drop_last()) + blanks_of(items.last().segments).map_values(
            |b: BlankV| b.id,
        )
    }
}

/// The ids of the blanks that come before blank `b` of item `i`.
pub open spec fn ids_before(items: Seq<ItemV>, i: int, b: int) -> Seq<Seq<char>> {
    flat_ids(items.take(i)) + blanks_of(items[i].segments).take(b).map_values(|x: BlankV| x.id)
}

/// What is wrong with one accepted answer of a blank, if anything.
pub open spec fn answer_problem(
    n: u32,
    visible_lower: Seq<char>,
    id: Seq<char>,
    a: Seq<char>,
) -> Option<SheetProblem> {
    if all_space(a) {
        Some(SheetProblem::EmptyAnswer(id))
    } else if leaks(visible_lower, lowercase_of(a)) {
        Some(SheetProblem::LeakedAnswer(n, a))
    } else {
        None
    }
}

/// Hyphens and apostrophes are part of a word when looking for leaked answers:
/// an answer made of letters, digits, hyphens and apostrophes, such as
/// `e-mail` or `geht's`, that stands in the visible text bounded by the ends of
/// the text or by characters that are neither letters, digits, hyphens nor
/// apostrophes, is found there; and a non-blank accepted answer whose lower
/// case form stands in the lower case visible text that way is a leaked answer.
pub proof fn law_answers_with_hyphens_are_found(
    before: Seq<char>,
    answer: Seq<char>,
    after: Seq<char>,
    n: u32,
    id: Seq<char>,
    accepted: Seq<char>,
)
    requires
        forall|k: int|
            0 <= k < answer.len() ==> is_alnum_char(#[trigger] answer[k]) || answer[k] == '-'
                || answer[k] == '\'',
        before.len() > 0 ==> !is_alnum_char(before.last()) && before.last() != '-' && before.last()
            != '\'',
        after.len() > 0 ==> !is_alnum_char(after[0]) && after[0] != '-' && after[0] != '\'',
    ensures
        leaks(before + answer + after, answer),
        !all_space(accepted) && lowercase_of(accepted) == answer ==> answer_problem(
            n,
            before + answer + after,
            id,
            accepted,
        ) == Some(SheetProblem::LeakedAnswer(n, accepted)),
{
    let s = before + answer + after;
    let i = before.len() as int;
    let j = i + answer.len();
    assert forall|k: int| i <= k < j implies !is_sep(#[trigger] s[k]) by {
        assert(s[k] == answer[k - i]);
    }
    if i > 0 {
        assert(s[i - 1] == before.last());
    }
    if j < s.len() {
        assert(s[j] == after[0]);
    }
    assert(word_at(s, i, j));
    assert(s.subrange(i, j) =~= answer);
}

/// What is wrong with a blank, given the ids seen before it, if anything.
pub open spec fn blank_check(
    before: Seq<Seq<char>>,
    n: u32,
    visible_lower: Seq<char>,
    b: BlankV,
) -> Option<SheetProblem> {
    if before.contains(b.id) {
        Some(SheetProblem::DuplicateBlankId(b.id))
    } else if b.accept.len() == 0 {
        Some(SheetProblem::EmptyAcceptList(b.id))
    } else {
        first_some(
            |a: int| answer_problem(n, visible_lower, b.id, b.accept[a]),
            b.accept.len() as int,
        )
    }
}

/// What is wrong with blank `b` of item `i`, if anything.
pub open spec fn blank_problem(items: Seq<ItemV>, i: int, b: int) -> Option<SheetProblem> {
    let it = items[i];
    blank_check(
        ids_before(items, i, b),
        it.n,
        lowercase_of(visible(it.segments)),
        blanks_of(it.segments)[b],
    )
}

/// What is wrong with item `i`, if anything.
pub open spec fn item_problem(items: Seq<ItemV>, i: int) -> Option<SheetProblem> {
    let it = items[i];
    if it.n != i + 1 {
        Some(SheetProblem::BadItemNumber(it.n, (i + 1) as u32))
    } else if blanks_of(it.segments).len() == 0 {
        Some(SheetProblem::ItemWithoutBlank(it.n))
    } else if all_space(visible(it.segments)) {
        Some(SheetProblem::ItemWithoutText(it.n))
    } else {
        first_some(|b: int| blank_problem(items, i, b), blanks_of(it.segments).len() as int)
    }
}

/// The first rule a sheet breaks, reading it item by item, blank by blank and
/// answer by answer; `None` when it keeps them all.
pub open spec fn sheet_problem(s: SheetV) -> Option<SheetProblem> {
    if s.items.len() != ITEMS_PER_SHEET {
        Some(SheetProblem::WrongItemCount(s.items.len()))
    } else {
        first_some(|i: int| item_problem(s.items, i), ITEMS_PER_SHEET as int)
    }
}

/// Where the blank at position `k` among the blanks stands among the segments.
pub open spec fn blank_seg(segs: Seq<SegmentV>, k: int) -> int {
    choose|j: int| 0 <= j < segs.len() && segs[j] is Blank && blanks_of(segs.take(j)).len() == k
}

proof fn lemma_blank_seg(segs: Seq<SegmentV>, k: int, j: int)
    requires
        0 <= j < segs.len(),
        segs[j] is Blank,
        blanks_of(segs.take(j)).len() == k,
    ensures
        blank_seg(segs, k) == j,
{
    let i = blank_seg(segs, k);
    assert(0 <= i < segs.len() && segs[i] is Blank && blanks_of(segs.take(i)).len() == k);
    if i < j {
        lemma_blanks_prefix(segs.take(j), i);
        assert(segs.take(j).take(i) =~= segs.take(i));
        assert(segs.take(j)[i] == segs[i]);
    } else if i > j {
        lemma_blanks_prefix(segs.take(i), j);
        assert(segs.take(i).take(j) =~= segs.take(j));
        assert(segs.take(i)[j] == segs[j]);
    }
}

proof fn lemma_blanks_prefix(segs: Seq<SegmentV>, j: int)
    requires
        0 <= j < segs.len(),
    ensures
        blanks_of(segs.take(j)).len() + (if segs[j] is Blank {
            1int
        } else {
            0int
        }) <= blanks_of(segs).len(),
    decreases segs.len(),
{
    if j == segs.len() - 1 {
        assert(segs.drop_last() =~= segs.take(j));
    } else {
        lemma_blanks_prefix(segs.drop_last(), j);
        assert(segs.drop_last().take(j) =~= segs.take(j));
    }
}

proof fn lemma_blanks_step(segs: Seq<SegmentV>, k: int)
    requires
        0 <= k < segs.len(),
    ensures
        blanks_of(segs.take(k + 1)) == match segs[k] {
            SegmentV::Blank(b) => blanks_of(segs.take(k)).push(b),
            SegmentV::Text(_) => blanks_of(segs.take(k)),
        },
        texts_of(segs.take(k + 1)) == match segs[k] {
            SegmentV::Text(t) => texts_of(segs.take(k)).push(t),
            SegmentV::Blank(_) => texts_of(segs.take(k)),
        },
{
    assert(segs.take(k + 1).drop_last() =~= segs.take(k));
}

proof fn lemma_flat_ids_step(items: Seq<ItemV>, i: int)
    requires
        0 <= i < items.len(),
    ensures
        flat_ids(items.take(i + 1)) == flat_ids(items.take(i)) + blanks_of(
            items[i].segments,
        ).map_values(|b: BlankV| b.id),
{
    assert(items.take(i + 1).drop_last() =~= items.take(i));
}

fn ids_contain(seen: &Vec<Vec<char>>, id: &Vec<char>) -> (r: bool)
    ensures
        r == seen@.map_values(|v: Vec<char>| v@).contains(id@),
{
    let ghost ids = seen@.map_values(|v: Vec<char>| v@);
    let mut k: usize = 0;
    while k < seen.len()
        invariant
            k <= seen.len(),
            ids == seen@.map_values(|v: Vec<char>| v@),
            forall|m: int| 0 <= m < k ==> ids[m] != id@,
        decreases seen.len() - k,
    {
        if same_chars(&seen[k], id) {
            assert(ids[k as int] == id@);
            return true;
        }
        k += 1;
    }
    false
}

impl Blank {
    /// The answer shown to the user when they got it wrong.
    pub fn canonical(&self) -> (r: &str)
        ensures
            r@ == canonical(self@),
    {
        if self.accept.len() > 0 {
            self.accept[0].as_str()
        } else {
            proof {
                reveal_strlit("");
            }
            assert(""@ =~= Seq::<char>::empty());
            ""
        }
    }

    /// Check one blank of item `n`, given the ids of the blanks before it, and
    /// add its id to them.
    #[verifier::loop_isolation(false)]
    fn check(
        &self,
        n: u32,
        visible_lower: &Vec<char>,
        seen: &mut Vec<Vec<char>>,
    ) -> (r: Result<(), SheetError>)
        ensures
            match blank_check(
                old(seen)@.map_values(|v: Vec<char>| v@),
                n,
                visible_lower@,
                self@,
            ) {
                None => r is Ok && final(seen)@.map_values(|v: Vec<char>| v@) == old(
                    seen,
                )@.map_values(|v: Vec<char>| v@).push(self.id@),
                Some(p) => r matches Err(e) && e@ == p,
            },
    {
        let id = chars_of(self.id.as_str());
        if ids_contain(seen, &id) {
            return Err(SheetError::DuplicateBlankId { blank: self.id.clone() });
        }
        let ghost before = seen@.map_values(|v: Vec<char>| v@);
        seen.push(id);
        proof {
            assert(seen@.map_values(|v: Vec<char>| v@) =~= before.push(self.id@));
        }
        if self.accept.len() == 0 {
            return Err(SheetError::EmptyAcceptList { blank: self.id.clone() });
        }
        let ghost f = |a: int| answer_problem(n, visible_lower@, self.id@, self@.accept[a]);
        proof {
            assert((|a: int| answer_problem(n, visible_lower@, self@.id, self@.accept[a])) =~= f);
        }
        let mut k: usize = 0;
        while k < self.accept.len()
            invariant
                k <= self.accept.len(),
                f == (|a: int| answer_problem(n, visible_lower@, self.id@, self@.accept[a])),
                first_some(f, k as int) is None,
            decreases self.accept.len() - k,
        {
            let answer = chars_of(self.accept[k].as_str());
            assert(self@.accept[k as int] == answer@);
            if blank_chars(&answer) {
                proof {
                    lemma_first_some_found(f, k as int, self.accept.len() as int);
                }
                return Err(SheetError::EmptyAnswer { blank: self.id.clone() });
            }
            let lower = lowercase_chars(&answer);
            if leaks_in(visible_lower, &lower) {
                proof {
                    lemma_first_some_found(f, k as int, self.accept.len() as int);
                }
                return Err(SheetError::LeakedAnswer { item: n, answer: self.accept[k].clone() });
            }
            assert(first_some(f, k + 1) is None);
            k += 1;
        }
        Ok(())
    }
}

impl Item {
    /// The blanks of this item, in order.
    pub fn blanks(&self) -> (r: Vec<&Blank>)
        ensures
            r@.len() == blanks_of(self@.segments).len(),
            forall|k: int| 0 <= k < r@.len() ==> (#[trigger] r@[k])@ == blanks_of(self@.segments)[k],
    {
        let ghost segs = self@.segments;
        let mut r: Vec<&Blank> = Vec::new();
        let mut k: usize = 0;
        while k < self.segments.len()
            invariant
                k <= self.segments.len(),
                segs == self@.segments,
                r@.len() == blanks_of(segs.take(k as int)).len(),
                forall|m: int| 0 <= m < r@.len() ==> (#[trigger] r@[m])@ == blanks_of(segs.take(k as int))[m],
            decreases self.segments.len() - k,
        {
            proof {
                lemma_blanks_step(segs, k as int);
            }
            match &self.segments[k] {
                Segment::Blank(b) => {
                    r.push(b);
                },
                Segment::Text { .. } => {},
            }
            k += 1;
        }
        assert(segs.take(self.segments.len() as int) =~= segs);
        r
    }

    /// The blank at position `k` among the item's blanks, to change in place;
    /// none when the item has no more than `k` blanks. Changing it changes
    /// that segment of the item and nothing else.
    pub fn blanks_mut(&mut self, k: usize) -> (r: Option<&mut Blank>)
        ensures
            k >= blanks_of(old(self)@.segments).len() ==> r is None && final(self)@ == old(self)@,
            k < blanks_of(old(self)@.segments).len() ==> (r matches Some(b) && old(self)@.segments[blank_seg(
                old(self)@.segments,
                k as int,
            )] == SegmentV::Blank(b@)),
            r matches Some(b) ==> ({
                let j = blank_seg(old(self)@.segments, k as int);
                &&& final(self).n == old(self).n
                &&& final(self).hint == old(self).hint
                &&& final(self)@.segments =~= old(self)@.segments.update(j, SegmentV::Blank(final(b)@))
            }),
    {
        let ghost segs = self@.segments;
        let mut j: usize = 0;
        let mut seen: usize = 0;
        while j < self.segments.len()
            invariant
                j <= self.segments.len(),
                segs == self@.segments,
                seen == blanks_of(segs.take(j as int)).len(),
                seen <= k,
            ensures
                j <= self.segments.len(),
                seen == blanks_of(segs.take(j as int)).len(),
                seen <= k,
                j < self.segments.len() ==> seen == k && segs[j as int] is Blank,
            decreases self.segments.len() - j,
        {
            proof {
                lemma_blanks_step(segs, j as int);
                assert(self.segments@[j as int]@ == segs[j as int]);
            }
            let is_blank = match &self.segments[j] {
                Segment::Blank(_) => true,
                Segment::Text { .. } => false,
            };
            if is_blank {
                if seen == k {
                    break;
                }
                seen += 1;
            }
            j += 1;
        }
        proof {
            if j == self.segments.len() {
                assert(segs.take(j as int) =~= segs);
            } else {
                lemma_blanks_prefix(segs, j as int);
                lemma_blank_seg(segs, k as int, j as int);
            }
        }
        if j == self.segments.len() {
            return None;
        }
        match &mut self.segments[j] {
            Segment::Blank(b) => Some(b),
            Segment::Text { .. } => None,
        }
    }

    /// True when this blank is the first thing in the sentence, which is the one
    /// case where a capital letter on a normally lowercase word is fine.
    pub fn is_sentence_initial(&self, blank_id: &str) -> (r: bool)
        ensures
            r == sentence_initial(self@.segments, blank_id@),
    {
        let ghost segs = self@.segments;
        let mut k: usize = 0;
        while k < self.segments.len()
            invariant
                k <= self.segments.len(),
                segs == self@.segments,
                forall|j: int| 0 <= j < k ==> is_space_text(#[trigger] segs[j]),
            decreases self.segments.len() - k,
        {
            match &self.segments[k] {
                Segment::Text { text } => {
                    if !blank_chars(&chars_of(text.as_str())) {
                        proof {
                            assert forall|m: int| 0 <= m < segs.len() implies !(has_blank_id(
                                #[trigger] segs[m],
                                blank_id@,
                            ) && forall|j: int| 0 <= j < m ==> is_space_text(#[trigger] segs[j])) by {
                                if m > k {
                                    assert(!is_space_text(segs[k as int]));
                                }
                            }
                        }
                        return false;
                    }
                },
                Segment::Blank(b) => {
                    let same = same_chars(&chars_of(b.id.as_str()), &chars_of(blank_id));
                    proof {
                        if !same {
                            assert forall|m: int| 0 <= m < segs.len() implies !(has_blank_id(
                                #[trigger] segs[m],
                                blank_id@,
                            ) && forall|j: int| 0 <= j < m ==> is_space_text(#[trigger] segs[j])) by {
                                if m > k {
                                    assert(!is_space_text(segs[k as int]));
                                }
                            }
                        } else {
                            assert(has_blank_id(segs[k as int], blank_id@));
                        }
                    }
                    return same;
                },
            }
            k += 1;
        }
        false
    }

    /// The visible text: the text pieces joined by single spaces.
    pub fn visible_text(&self) -> (r: Vec<char>)
        ensures
            r@ == visible(self@.segments),
    {
        let ghost segs = self@.segments;
        let mut r: Vec<char> = Vec::new();
        let mut count: usize = 0;
        let mut k: usize = 0;
        while k < self.segments.len()
            invariant
                k <= self.segments.len(),
                segs == self@.segments,
                count == texts_of(segs.take(k as int)).len(),
                r@ == join_spaced(texts_of(segs.take(k as int))),
            decreases self.segments.len() - k,
        {
            proof {
                lemma_blanks_step(segs, k as int);
                lemma_texts_len(segs.take(k as int));
            }
            match &self.segments[k] {
                Segment::Text { text } => {
                    let ghost ws = texts_of(segs.take(k as int));
                    if count > 0 {
                        r.push(' ');
                    }
                    let t = chars_of(text.as_str());
                    crate::text::push_chars(&mut r, &t);
                    count += 1;
                    proof {
                        let ws2 = ws.push(text@);
                        assert(ws2.drop_last() =~= ws);
                        if ws.len() == 0 {
                            assert(join_spaced(ws2) == text@);
                            assert(r@ =~= text@);
                        } else {
                            assert(r@ =~= join_spaced(ws) + seq![' '] + text@);
                        }
                    }
                },
                Segment::Blank(_) => {},
            }
            k += 1;
        }
        assert(segs.take(self.segments.len() as int) =~= segs);
        r
    }

    /// Check this item, the `index`-th of its sheet, given the ids of every
    /// blank in the items before it, and add its own blank ids to them.
    #[verifier::loop_isolation(false)]
    fn check(
        &self,
        index: usize,
        seen: &mut Vec<Vec<char>>,
        Ghost(items): Ghost<Seq<ItemV>>,
    ) -> (r: Result<(), SheetError>)
        requires
            index < items.len(),
            index < ITEMS_PER_SHEET,
            items[index as int] == self@,
            old(seen)@.map_values(|v: Vec<char>| v@) == flat_ids(items.take(index as int)),
        ensures
            match item_problem(items, index as int) {
                None => r is Ok && final(seen)@.map_values(|v: Vec<char>| v@) == flat_ids(
                    items.take(index + 1),
                ),
                Some(p) => r matches Err(e) && e@ == p,
            },
    {
        let expected: u32 = index as u32 + 1;
        if self.n != expected {
            return Err(SheetError::BadItemNumber { found: self.n, expected });
        }
        let blanks = self.blanks();
        if blanks.len() == 0 {
            return Err(SheetError::ItemWithoutBlank { item: self.n });
        }
        let vis = self.visible_text();
        if blank_chars(&vis) {
            return Err(SheetError::ItemWithoutText { item: self.n });
        }
        let visible_lower = lowercase_chars(&vis);
        let ghost segs = self@.segments;
        let ghost bl = blanks_of(segs);
        let ghost f = |b: int| blank_problem(items, index as int, b);
        proof {
            assert((|b: int| blank_problem(items, index as int, b)) =~= f);
        }
        let mut k: usize = 0;
        while k < blanks.len()
            invariant
                k <= blanks.len(),
                index < items.len(),
                items[index as int] == self@,
                segs == self@.segments,
                bl == blanks_of(segs),
                blanks@.len() == bl.len(),
                forall|m: int| 0 <= m < blanks@.len() ==> (#[trigger] blanks@[m])@ == bl[m],
                visible_lower@ == lowercase_of(visible(segs)),
                f == (|b: int| blank_problem(items, index as int, b)),
                first_some(f, k as int) is None,
                seen@.map_values(|v: Vec<char>| v@) == ids_before(items, index as int, k as int),
            decreases blanks.len() - k,
        {
            let b = blanks[k];
            proof {
                assert(b@ == bl[k as int]);
            }
            let checked = b.check(self.n, &visible_lower, seen);
            match checked {
                Err(e) => {
                    proof {
                        lemma_first_some_found(f, k as int, blanks.len() as int);
                    }
                    return Err(e);
                },
                Ok(()) => {},
            }
            proof {
                assert(bl.take(k + 1).map_values(|x: BlankV| x.id) =~= bl.take(k as int).map_values(
                    |x: BlankV| x.id,
                ).push(bl[k as int].id));
                assert(ids_before(items, index as int, k + 1) =~= ids_before(
                    items,
                    index as int,
                    k as int,
                ).push(bl[k as int].id));
            }
            k += 1;
        }
        proof {
            lemma_flat_ids_step(items, index as int);
            assert(bl.take(blanks.len() as int) =~= bl);
        }
        Ok(())
    }
}

proof fn lemma_texts_len(segs: Seq<SegmentV>)
    ensures
        texts_of(segs).len() <= segs.len(),
    decreases segs.len(),
{
    if segs.len() > 0 {
        lemma_texts_len(segs.drop_last());
    }
}

impl Sheet {
    /// Every rule a generated sheet has to satisfy before it can be stored.
    pub fn validate(&self) -> (r: Result<(), SheetError>)
        ensures
            match sheet_problem(self@) {
                None => r is Ok,
                Some(p) => r matches Err(e) && e@ == p,
            },
    {
        if self.items.len() != ITEMS_PER_SHEET {
            return Err(SheetError::WrongItemCount(self.items.len()));
        }
        let ghost items = self@.items;
        let ghost f = |i: int| item_problem(items, i);
        let mut seen: Vec<Vec<char>> = Vec::new();
        let mut index: usize = 0;
        proof {
            assert(seen@.map_values(|v: Vec<char>| v@) =~= flat_ids(items.take(0)));
        }
        while index < ITEMS_PER_SHEET
            invariant
                index <= ITEMS_PER_SHEET,
                items == self@.items,
                items.len() == ITEMS_PER_SHEET,
                self.items@.len() == ITEMS_PER_SHEET,
                f == (|i: int| item_problem(items, i)),
                first_some(f, index as int) is None,
                seen@.map_values(|v: Vec<char>| v@) == flat_ids(items.take(index as int)),
            decreases ITEMS_PER_SHEET - index,
        {
            match self.items[index].check(index, &mut seen, Ghost(items)) {
                Err(e) => {
                    proof {
                        lemma_first_some_found(f, index as int, ITEMS_PER_SHEET as int);
                    }
                    return Err(e);
                },
                Ok(()) => {},
            }
            index += 1;
        }
        Ok(())
    }
}


/// The sheet with `answer` added to the accept list of the located blank.
pub open spec fn with_accepted(s: SheetV, loc: (int, int), answer: Seq<char>) -> SheetV {
    let it = s.items[loc.0];
    let b = blank_at(s.items, loc);
    SheetV {
        items: s.items.update(
            loc.0,
            ItemV {
                segments: it.segments.update(
                    loc.1,
                    SegmentV::Blank(BlankV { accept: b.accept.push(answer), ..b }),
                ),
                ..it
            },
        ),
        ..s
    }
}

/// What "also accept" does to a sheet: the trimmed answer joins the accept list
/// of the first blank with that id, unless it is empty, already there, or no
/// blank has the id. The flag says whether the list grew.
pub open spec fn accept_also_result(s: SheetV, id: Seq<char>, answer: Seq<char>) -> (SheetV, bool) {
    let t = trim(answer);
    match find_blank(s.items, id) {
        None => (s, false),
        Some(loc) => if t.len() == 0 || blank_at(s.items, loc).accept.contains(t) {
            (s, false)
        } else {
            (with_accepted(s, loc, t), true)
        },
    }
}

fn strings_contain(v: &Vec<String>, t: &Vec<char>) -> (r: bool)
    ensures
        r == v@.map_values(|a: String| a@).contains(t@),
{
    let ghost m = v@.map_values(|a: String| a@);
    let mut k: usize = 0;
    while k < v.len()
        invariant
            k <= v.len(),
            m == v@.map_values(|a: String| a@),
            forall|x: int| 0 <= x < k ==> m[x] != t@,
        decreases v.len() - k,
    {
        if same_chars(&chars_of(v[k].as_str()), t) {
            assert(m[k as int] == t@);
            return true;
        }
        k += 1;
    }
    false
}

/// A located blank is a blank with the id asked for.
pub proof fn lemma_find_blank(items: Seq<ItemV>, id: Seq<char>)
    ensures
        find_blank(items, id) matches Some(loc) ==> {
            &&& 0 <= loc.0 < items.len()
            &&& 0 <= loc.1 < items[loc.0].segments.len()
            &&& has_blank_id(items[loc.0].segments[loc.1], id)
            &&& blank_at(items, loc).id == id
        },
{
    crate::find::lemma_first_where(items, |it: ItemV| item_has_blank(it, id));
    if let Some(i) = first_where(items, |it: ItemV| item_has_blank(it, id)) {
        crate::find::lemma_first_where(items[i].segments, |sg: SegmentV| has_blank_id(sg, id));
        if first_where(items[i].segments, |sg: SegmentV| has_blank_id(sg, id)) is None {
            let j = choose|j: int| 0 <= j < items[i].segments.len() && has_blank_id(#[trigger] items[i].segments[j], id);
            assert(has_blank_id(items[i].segments[j], id));
        }
    }
}

impl Sheet {
    /// Where the first blank with this id sits, item and segment.
    #[verifier::loop_isolation(false)]
    fn locate(&self, blank_id: &str) -> (r: Option<(usize, usize)>)
        ensures
            match r {
                None => find_blank(self@.items, blank_id@) is None,
                Some(p) => find_blank(self@.items, blank_id@) == Some((p.0 as int, p.1 as int))
                    && p.0 < self.items@.len() && p.1 < self.items@[p.0 as int].segments@.len(),
            },
    {
        let ghost items = self@.items;
        let ghost id = blank_id@;
        let ghost pi = |it: ItemV| item_has_blank(it, id);
        let want = chars_of(blank_id);
        let mut i: usize = 0;
        while i < self.items.len()
            invariant
                i <= self.items.len(),
                items == self@.items,
                id == blank_id@,
                want@ == id,
                pi == (|it: ItemV| item_has_blank(it, id)),
                forall|x: int| 0 <= x < i ==> !pi(#[trigger] items[x]),
            decreases self.items.len() - i,
        {
            let item = &self.items[i];
            let ghost segs = item@.segments;
            let ghost ps = |sg: SegmentV| has_blank_id(sg, id);
            let mut j: usize = 0;
            while j < item.segments.len()
                invariant
                    j <= item.segments.len(),
                    segs == item@.segments,
                    want@ == id,
                    ps == (|sg: SegmentV| has_blank_id(sg, id)),
                    forall|x: int| 0 <= x < j ==> !ps(#[trigger] segs[x]),
                decreases item.segments.len() - j,
            {
                let hit = match &item.segments[j] {
                    Segment::Blank(b) => same_chars(&chars_of(b.id.as_str()), &want),
                    Segment::Text { .. } => false,
                };
                if hit {
                    proof {
                        assert(ps(segs[j as int]));
                        assert(pi(items[i as int]));
                        lemma_first_where_at(items, pi, i as int);
                        lemma_first_where_at(segs, ps, j as int);
                        assert(find_blank(items, id) == Some((i as int, j as int)));
                    }
                    return Some((i, j));
                }
                j += 1;
            }
            proof {
                assert(!pi(items[i as int]));
            }
            i += 1;
        }
        proof {
            lemma_first_where_none(items, pi);
        }
        None
    }

    /// The first blank with this id.
    pub fn blank(&self, blank_id: &str) -> (r: Option<&Blank>)
        ensures
            match find_blank(self@.items, blank_id@) {
                None => r is None,
                Some(loc) => r matches Some(b) && b@ == blank_at(self@.items, loc),
            },
    {
        match self.locate(blank_id) {
            None => None,
            Some((i, j)) => {
                proof {
                    lemma_find_blank(self@.items, blank_id@);
                }
                assert(self.items@[i as int].segments@[j as int]@ == self@.items[i as int].segments[j as int]);
                match &self.items[i].segments[j] {
                    Segment::Blank(b) => Some(b),
                    Segment::Text { .. } => None,
                }
            },
        }
    }

    /// The item that holds the first blank with this id.
    pub fn item_of(&self, blank_id: &str) -> (r: Option<&Item>)
        ensures
            match find_blank(self@.items, blank_id@) {
                None => r is None,
                Some(loc) => r matches Some(it) && it@ == self@.items[loc.0],
            },
    {
        match self.locate(blank_id) {
            None => None,
            Some((i, _)) => Some(&self.items[i]),
        }
    }

    /// Add an answer to a blank's accept list. This is what "also accept" does,
    /// and it patches the stored sheet permanently.
    pub fn accept_also(&mut self, blank_id: &str, answer: &str) -> (r: bool)
        ensures
            (final(self)@, r) == accept_also_result(old(self)@, blank_id@, answer@),
    {
        let t = trim_chars(&chars_of(answer));
        if t.len() == 0 {
            return false;
        }
        match self.locate(blank_id) {
            None => false,
            Some((i, j)) => {
                let ghost old_sheet = self@;
                let ghost loc = (i as int, j as int);
                assert(self.items@[i as int].segments@[j as int]@ == old_sheet.items[i as int].segments[j as int]);
                proof {
                    lemma_find_blank(old_sheet.items, blank_id@);
                }
                let present = match &self.items[i].segments[j] {
                    Segment::Blank(b) => strings_contain(&b.accept, &t),
                    Segment::Text { .. } => true,
                };
                if present {
                    return false;
                }
                let added = string_of(&t);
                let item = &mut self.items[i];
                let seg = &mut item.segments[j];
                match seg {
                    Segment::Blank(b) => {
                        let ghost before = b@;
                        b.accept.push(added);
                        proof {
                            assert(b@.accept =~= before.accept.push(t@));
                            assert(b@ == BlankV { accept: before.accept.push(t@), ..before });
                        }
                    },
                    Segment::Text { .. } => {},
                }
                proof {
                    let want = with_accepted(old_sheet, loc, t@);
                    let b = blank_at(old_sheet.items, loc);
                    assert(self@.items[i as int].segments[j as int] == SegmentV::Blank(BlankV { accept: b.accept.push(t@), ..b }));
                    assert(self@.items[i as int].segments =~= want.items[i as int].segments);
                    assert(self@.items =~= want.items);
                }
                true
            },
        }
    }
}

// ---------------------------------------------------------------- laws

/// Adding an answer to a blank moves no blank: every id is found where it was.
pub proof fn lemma_find_blank_after_accept(s: SheetV, loc: (int, int), answer: Seq<char>, id: Seq<char>)
    requires
        0 <= loc.0 < s.items.len(),
        0 <= loc.1 < s.items[loc.0].segments.len(),
        s.items[loc.0].segments[loc.1] is Blank,
    ensures
        find_blank(with_accepted(s, loc, answer).items, id) == find_blank(s.items, id),
{
    let s2 = with_accepted(s, loc, answer);
    let segs = s.items[loc.0].segments;
    let segs2 = s2.items[loc.0].segments;
    let ps = |sg: SegmentV| has_blank_id(sg, id);
    let pi = |it: ItemV| item_has_blank(it, id);
    assert forall|k: int| 0 <= k < segs.len() implies ps(#[trigger] segs[k]) == ps(segs2[k]) by {}
    assert forall|k: int| 0 <= k < s.items.len() implies pi(#[trigger] s.items[k]) == pi(s2.items[k]) by {
        if k == loc.0 {
            if pi(s.items[k]) {
                let j = choose|j: int| 0 <= j < segs.len() && has_blank_id(#[trigger] segs[j], id);
                assert(has_blank_id(segs2[j], id));
            }
            if pi(s2.items[k]) {
                let j = choose|j: int| 0 <= j < segs2.len() && has_blank_id(#[trigger] segs2[j], id);
                assert(has_blank_id(segs[j], id));
            }
        }
    }
    crate::find::lemma_first_where_same(s.items, s2.items, pi, pi);
    lemma_first_where(s.items, pi);
    if let Some(i) = first_where(s.items, pi) {
        if i == loc.0 {
            crate::find::lemma_first_where_same(segs, segs2, ps, ps);
        } else {
            assert(s2.items[i] == s.items[i]);
        }
    }
}

/// "Also accept" leaves the located blank accepting the trimmed answer, and
/// every blank where it was.
pub proof fn law_accept_also_accepts(s: SheetV, id: Seq<char>, answer: Seq<char>)
    requires
        find_blank(s.items, id) is Some,
        trim(answer).len() > 0,
    ensures
        ({
            let s2 = accept_also_result(s, id, answer).0;
            let loc = find_blank(s.items, id)->0;
            &&& find_blank(s2.items, id) == Some(loc)
            &&& blank_at(s2.items, loc).accept.contains(trim(answer))
            &&& blank_at(s2.items, loc).id == id
        }),
{
    let loc = find_blank(s.items, id)->0;
    lemma_find_blank(s.items, id);
    let t = trim(answer);
    let b = blank_at(s.items, loc);
    if !b.accept.contains(t) {
        lemma_find_blank_after_accept(s, loc, t, id);
        let s2 = with_accepted(s, loc, t);
        assert(blank_at(s2.items, loc).accept == b.accept.push(t));
        assert(b.accept.push(t)[b.accept.len() as int] == t);
    }
}

/// Also accepting the same answer twice adds it once: the second time changes
/// nothing and reports that nothing changed.
pub proof fn law_accept_also_once(s: SheetV, id: Seq<char>, answer: Seq<char>)
    ensures
        ({
            let s2 = accept_also_result(s, id, answer).0;
            accept_also_result(s2, id, answer) == (s2, false)
        }),
{
    if find_blank(s.items, id) is Some && trim(answer).len() > 0 {
        law_accept_also_accepts(s, id, answer);
    }
}

/// The id of blank `b` of item `i`.
pub open spec fn blank_id_at(items: Seq<ItemV>, i: int, b: int) -> Seq<char> {
    blanks_of(items[i].segments)[b].id
}

/// Item `i` keeps the item rules: numbered in order, with a blank and visible text.
pub open spec fn item_keeps_rules(items: Seq<ItemV>, i: int) -> bool {
    let it = items[i];
    &&& it.n == i + 1
    &&& blanks_of(it.segments).len() > 0
    &&& !all_space(visible(it.segments))
}

/// Blank `b` of item `i` keeps the blank rules: it accepts something, and no
/// accepted answer is blank or shows up as a word of the sentence.
pub open spec fn blank_keeps_rules(items: Seq<ItemV>, i: int, b: int) -> bool {
    let it = items[i];
    let bl = blanks_of(it.segments)[b];
    &&& bl.accept.len() > 0
    &&& forall|a: int|
        0 <= a < bl.accept.len() ==> !all_space(#[trigger] bl.accept[a]) && !leaks(
            lowercase_of(visible(it.segments)),
            lowercase_of(bl.accept[a]),
        )
}

/// No two blanks of the sheet share an id.
pub open spec fn ids_distinct(items: Seq<ItemV>) -> bool {
    forall|i1: int, b1: int, i2: int, b2: int|
        0 <= i1 < items.len() && 0 <= i2 < items.len() && 0 <= b1 < blanks_of(
            items[i1].segments,
        ).len() && 0 <= b2 < blanks_of(items[i2].segments).len() && (i1 < i2 || (i1 == i2 && b1
            < b2)) ==> #[trigger] blank_id_at(items, i1, b1) != #[trigger] blank_id_at(items, i2, b2)
}

proof fn lemma_flat_ids_contains(items: Seq<ItemV>, i: int, b: int, n: int)
    requires
        0 <= i < n <= items.len(),
        0 <= b < blanks_of(items[i].segments).len(),
    ensures
        flat_ids(items.take(n)).contains(blank_id_at(items, i, b)),
    decreases n,
{
    let t = items.take(n);
    assert(t.drop_last() =~= items.take(n - 1));
    if n == i + 1 {
        let pre = flat_ids(items.take(i));
        let ids = blanks_of(items[i].segments).map_values(|x: BlankV| x.id);
        assert(flat_ids(t) == pre + ids);
        assert((pre + ids)[pre.len() + b] == blank_id_at(items, i, b));
    } else {
        lemma_flat_ids_contains(items, i, b, n - 1);
        let pre = flat_ids(items.take(n - 1));
        let w = choose|w: int| 0 <= w < pre.len() && pre[w] == blank_id_at(items, i, b);
        assert(flat_ids(t)[w] == pre[w]);
    }
}

/// A sheet that passes validation keeps every rule: twenty items numbered 1 to
/// 20, each with a blank and visible text; every blank accepting at least one
/// answer, none of them blank or sitting as a word in the sentence; and no
/// blank id used twice anywhere in the sheet.
pub proof fn law_valid_sheet_keeps_the_rules(s: SheetV)
    requires
        sheet_problem(s) is None,
    ensures
        s.items.len() == ITEMS_PER_SHEET,
        forall|i: int| 0 <= i < s.items.len() ==> #[trigger] item_keeps_rules(s.items, i),
        forall|i: int, b: int|
            0 <= i < s.items.len() && 0 <= b < blanks_of(s.items[i].segments).len()
                ==> #[trigger] blank_keeps_rules(s.items, i, b),
        ids_distinct(s.items),
{
    let items = s.items;
    let f = |i: int| item_problem(items, i);
    assert forall|i: int| 0 <= i < items.len() implies #[trigger] item_keeps_rules(items, i) by {
        crate::find::lemma_first_some_none_at(f, i, ITEMS_PER_SHEET as int);
    }
    assert forall|i: int, b: int|
        0 <= i < items.len() && 0 <= b < blanks_of(items[i].segments).len()
            implies #[trigger] blank_problem(items, i, b) is None by {
        crate::find::lemma_first_some_none_at(f, i, ITEMS_PER_SHEET as int);
        let g = |b: int| blank_problem(items, i, b);
        crate::find::lemma_first_some_none_at(g, b, blanks_of(items[i].segments).len() as int);
    }
    assert forall|i: int, b: int|
        0 <= i < items.len() && 0 <= b < blanks_of(items[i].segments).len()
            implies #[trigger] blank_keeps_rules(items, i, b) by {
        assert(blank_problem(items, i, b) is None);
        let it = items[i];
        let bl = blanks_of(it.segments)[b];
        let vl = lowercase_of(visible(it.segments));
        let h = |a: int| answer_problem(it.n, vl, bl.id, bl.accept[a]);
        assert forall|a: int| 0 <= a < bl.accept.len() implies !all_space(#[trigger] bl.accept[a]) && !leaks(vl, lowercase_of(bl.accept[a])) by {
            crate::find::lemma_first_some_none_at(h, a, bl.accept.len() as int);
        }
    }
    assert forall|i1: int, b1: int, i2: int, b2: int|
        0 <= i1 < items.len() && 0 <= i2 < items.len() && 0 <= b1 < blanks_of(
            items[i1].segments,
        ).len() && 0 <= b2 < blanks_of(items[i2].segments).len() && (i1 < i2 || (i1 == i2 && b1
            < b2)) implies #[trigger] blank_id_at(items, i1, b1) != #[trigger] blank_id_at(items, i2, b2) by {
        assert(blank_problem(items, i2, b2) is None);
        let before = ids_before(items, i2, b2);
        assert(!before.contains(blank_id_at(items, i2, b2)));
        let pre = flat_ids(items.take(i2));
        let own = blanks_of(items[i2].segments).take(b2).map_values(|x: BlankV| x.id);
        if i1 < i2 {
            lemma_flat_ids_contains(items, i1, b1, i2);
            let w = choose|w: int| 0 <= w < pre.len() && pre[w] == blank_id_at(items, i1, b1);
            assert(before[w] == pre[w]);
        } else {
            assert(own[b1] == blank_id_at(items, i1, b1));
            assert(before[pre.len() + b1] == own[b1]);
        }
    }
}

} // verus!
