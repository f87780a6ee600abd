//! Grading a filled in sheet.
//!
//! German makes three demands that a naive string compare gets wrong:
//!
//! 1. Nouns are capitalised, so `haus` is not `Haus`. But a blank at the start
//!    of a sentence is capitalised for position, not for grammar.
//! 2. `Straße` and `Strasse` are both real spellings, and so are `für` and
//!    `fuer` on a keyboard without umlauts.
//! 3. A trailing full stop the user typed is not a grammar mistake.

use vstd::prelude::*;

use crate::domain::{ErrorKind, ErrorTag, Rating};
use crate::find::{first_where, lemma_first_where_at, lemma_first_where_none, lemma_first_where_same};
use crate::domain::fsrs_button;
use crate::sheet::{
    accept_also_result, blank_at, blanks_of, canonical, find_blank, law_accept_also_accepts,
    sentence_initial, Blank, BlankV, Item, ItemV, Sheet, SheetV,
};
use crate::text::{lemma_collapse_trim, trim, words};
use crate::text::{
    ascii_punct, chars_of, collapse, collapse_chars, is_ascii_punct, is_lower_char, is_upper_char,
    lemma_strip_end_take, lemma_strip_start_skip, lower_char, lowercase_chars, lowercase_of,
    push_chars, push_str, same_chars, string_of, strip, strip_end, strip_start, upper_char,
};

verus! {

// ---------------------------------------------------------------- verdicts

pub enum VerdictV {
    Correct,
    CorrectWithNote { note: Seq<char>, expected: Seq<char> },
    Wrong { expected: Seq<char>, tags: Seq<(ErrorKind, Seq<char>)> },
}

#[derive(Debug, PartialEq)]
pub enum Verdict {
    /// Exactly right.
    Correct,
    /// Counted as right, with something worth knowing.
    CorrectWithNote { note: String, expected: String },
    /// Wrong. `expected` is the canonical answer, shown in place of a summary.
    Wrong { expected: String, tags: Vec<ErrorTag> },
}

impl View for Verdict {
    type V = VerdictV;

    open spec fn view(&self) -> VerdictV {
        match self {
            Verdict::Correct => VerdictV::Correct,
            Verdict::CorrectWithNote { note, expected } => VerdictV::CorrectWithNote {
                note: note@,
                expected: expected@,
            },
            Verdict::Wrong { expected, tags } => VerdictV::Wrong {
                expected: expected@,
                tags: tags@.map_values(|t: ErrorTag| t@),
            },
        }
    }
}

pub open spec fn counts_as_correct(v: VerdictV) -> bool {
    !(v is Wrong)
}

impl Verdict {
    pub fn is_correct(&self) -> (r: bool)
        ensures
            r == counts_as_correct(self@),
    {
        match self {
            Verdict::Wrong { .. } => false,
            _ => true,
        }
    }
}

pub struct ResultV {
    pub blank_id: Seq<char>,
    pub given: Seq<char>,
    pub verdict: VerdictV,
}

#[derive(Debug, PartialEq)]
pub struct BlankResult {
    pub blank_id: String,
    pub given: String,
    pub verdict: Verdict,
}

impl View for BlankResult {
    type V = ResultV;

    open spec fn view(&self) -> ResultV {
        ResultV { blank_id: self.blank_id@, given: self.given@, verdict: self.verdict@ }
    }
}

pub struct GradedV {
    pub results: Seq<ResultV>,
    pub correct: nat,
    pub total: nat,
    pub rating: Rating,
}

/// A graded sheet. The score, `correct / total`, is a fraction of these two
/// counts; `rating` is what that fraction earns.
#[derive(Debug, PartialEq)]
pub struct GradedSheet {
    pub results: Vec<BlankResult>,
    pub correct: usize,
    pub total: usize,
    pub rating: Rating,
}

impl View for GradedSheet {
    type V = GradedV;

    open spec fn view(&self) -> GradedV {
        GradedV {
            results: self.results@.map_values(|r: BlankResult| r@),
            correct: self.correct as nat,
            total: self.total as nat,
            rating: self.rating,
        }
    }
}

// ---------------------------------------------------------------- normalising

/// Punctuation the user may have typed around a word. Hyphens and apostrophes
/// carry meaning and stay.
pub open spec fn is_stray(c: char) -> bool {
    is_ascii_punct(c) && c != '-' && c != '\''
}

/// Trim, collapse inner whitespace, and drop punctuation the user typed around
/// the word.
pub open spec fn clean(s: Seq<char>) -> Seq<char> {
    strip(collapse(s), |c: char| is_stray(c))
}

/// One character written the long way: umlauts and sharp s spelled out,
/// capitals kept as they are.
pub open spec fn translit_char(c: char) -> Seq<char> {
    if c == 'ä' {
        seq!['a', 'e']
    } else if c == 'ö' {
        seq!['o', 'e']
    } else if c == 'ü' {
        seq!['u', 'e']
    } else if c == 'ß' {
        seq!['s', 's']
    } else if c == 'Ä' {
        seq!['A', 'e']
    } else if c == 'Ö' {
        seq!['O', 'e']
    } else if c == 'Ü' {
        seq!['U', 'e']
    } else {
        seq![c]
    }
}

/// Umlauts and sharp s rewritten the long way: `Straße` becomes `Strasse`,
/// `Ärger` becomes `Aerger`.
pub open spec fn translit(s: Seq<char>) -> Seq<char>
    decreases s.len(),
{
    if s.len() == 0 {
        seq![]
    } else {
        translit(s.drop_last()) + translit_char(s.last())
    }
}

/// The comparison form: transliterated and lowercase, so `für`, `fuer` and
/// `FUER` all collapse to the same string.
pub open spec fn fold(s: Seq<char>) -> Seq<char> {
    lowercase_of(translit(s))
}

pub open spec fn same_ignoring_case(a: Seq<char>, b: Seq<char>) -> bool {
    lowercase_of(a) == lowercase_of(b)
}

pub open spec fn starts_upper(s: Seq<char>) -> bool {
    s.len() > 0 && is_upper_char(s[0])
}

pub open spec fn starts_lower(s: Seq<char>) -> bool {
    s.len() > 0 && is_lower_char(s[0])
}

/// The tag of an answer whose letters were right and capitals wrong.
pub open spec fn capitalisation_tag() -> (ErrorKind, Seq<char>) {
    (ErrorKind::Capitalisation, "letter_case"@)
}

/// The note on an answer accepted in its long spelling.
pub open spec fn spelling_note(accepted: Seq<char>) -> Seq<char> {
    "`"@ + accepted + "` is the normal spelling"@
}

/// The verdict on `given` for a blank, where `initial` says whether the blank
/// opens its sentence.
///
/// An empty answer is wrong. Any accepted answer, compared after cleaning, is
/// right. Otherwise the first accepted answer with the same letters in other
/// capitals decides: right only for a lowercase word capitalised at the start
/// of a sentence. Otherwise the first accepted answer equal after spelling
/// umlauts and sharp s the long way decides: right with a note when the
/// capitals of the long spelling match. Anything else is wrong, with the
/// blank's own tags.
pub open spec fn grade_verdict(b: BlankV, initial: bool, given: Seq<char>) -> VerdictV {
    let g = clean(given);
    let acc = b.accept.map_values(|a: Seq<char>| clean(a));
    let wrong = VerdictV::Wrong { expected: canonical(b), tags: b.tags };
    if g.len() == 0 {
        wrong
    } else if acc.contains(g) {
        VerdictV::Correct
    } else {
        match first_where(acc, |a: Seq<char>| same_ignoring_case(a, g)) {
            Some(i) => if initial && starts_lower(acc[i]) && starts_upper(g) {
                VerdictV::Correct
            } else {
                VerdictV::Wrong { expected: acc[i], tags: seq![capitalisation_tag()] }
            },
            None => match first_where(acc, |a: Seq<char>| fold(a) == fold(g)) {
                Some(i) => {
                    let t = translit(acc[i]);
                    if t == g || (initial && starts_lower(t) && starts_upper(g)
                        && same_ignoring_case(t, g)) {
                        VerdictV::CorrectWithNote { note: spelling_note(acc[i]), expected: acc[i] }
                    } else {
                        VerdictV::Wrong { expected: acc[i], tags: seq![capitalisation_tag()] }
                    }
                },
                None => wrong,
            },
        }
    }
}

fn stray(c: char) -> (r: bool)
    ensures
        r == is_stray(c),
{
    ascii_punct(c) && c != '-' && c != '\''
}

/// Trim, collapse inner whitespace, and drop stray punctuation at both ends.
pub fn clean_chars(v: &Vec<char>) -> (r: Vec<char>)
    ensures
        r@ == clean(v@),
{
    let v = collapse_chars(v);
    let ghost p = |c: char| is_stray(c);
    let mut a: usize = 0;
    while a < v.len() && stray(v[a])
        invariant
            a <= v.len(),
            p == (|c: char| is_stray(c)),
            forall|j: int| 0 <= j < a ==> #[trigger] p(v@[j]),
        decreases v.len() - a,
    {
        a += 1;
    }
    proof {
        lemma_strip_start_skip(v@, p, a as int);
    }
    let mut b: usize = v.len();
    while b > a && stray(v[b - 1])
        invariant
            a <= b <= v.len(),
            p == (|c: char| is_stray(c)),
            forall|j: int| b <= j < v.len() ==> #[trigger] p(v@[j]),
        decreases b,
    {
        b -= 1;
    }
    let mut r: Vec<char> = Vec::new();
    let mut i: usize = a;
    while i < b
        invariant
            a <= i <= b,
            b <= v.len(),
            r@ == v@.subrange(a as int, i as int),
        decreases b - i,
    {
        r.push(v[i]);
        i += 1;
        assert(r@ =~= v@.subrange(a as int, i as int));
    }
    proof {
        let t = v@.skip(a as int);
        assert(strip_start(t, p) == t);
        let k = b - a;
        assert forall|j: int| k <= j < t.len() implies #[trigger] p(t[j]) by {
            assert(t[j] == v@[j + a]);
        }
        lemma_strip_end_take(t, p, k);
        assert(t.take(k) =~= v@.subrange(a as int, b as int));
        if k > 0 {
            assert(!p(t.take(k).last()));
        }
        assert(strip_end(t.take(k), p) == t.take(k));
    }
    r
}

/// Rewrite umlauts and sharp s the long way, keeping the capitals as they are.
pub fn translit_chars(v: &Vec<char>) -> (r: Vec<char>)
    ensures
        r@ == translit(v@),
{
    let mut r: Vec<char> = Vec::new();
    let mut i: usize = 0;
    while i < v.len()
        invariant
            i <= v.len(),
            r@ == translit(v@.take(i as int)),
        decreases v.len() - i,
    {
        let c = v[i];
        let ghost before = r@;
        if c == 'ä' {
            r.push('a');
            r.push('e');
        } else if c == 'ö' {
            r.push('o');
            r.push('e');
        } else if c == 'ü' {
            r.push('u');
            r.push('e');
        } else if c == 'ß' {
            r.push('s');
            r.push('s');
        } else if c == 'Ä' {
            r.push('A');
            r.push('e');
        } else if c == 'Ö' {
            r.push('O');
            r.push('e');
        } else if c == 'Ü' {
            r.push('U');
            r.push('e');
        } else {
            r.push(c);
        }
        proof {
            assert(v@.take(i + 1).drop_last() =~= v@.take(i as int));
            assert(r@ =~= before + translit_char(c));
        }
        i += 1;
    }
    assert(v@.take(v.len() as int) =~= v@);
    r
}

fn starts_upper_chars(v: &Vec<char>) -> (r: bool)
    ensures
        r == starts_upper(v@),
{
    v.len() > 0 && upper_char(v[0])
}

fn starts_lower_chars(v: &Vec<char>) -> (r: bool)
    ensures
        r == starts_lower(v@),
{
    v.len() > 0 && lower_char(v[0])
}

fn capitalisation_mistake(accepted: &Vec<char>) -> (r: Verdict)
    ensures
        r@ == (VerdictV::Wrong { expected: accepted@, tags: seq![capitalisation_tag()] }),
{
    let tag = ErrorTag::new(ErrorKind::Capitalisation, "letter_case");
    let tags = vec![tag];
    proof {
        assert(tags@.map_values(|t: ErrorTag| t@) =~= seq![capitalisation_tag()]);
    }
    Verdict::Wrong { expected: string_of(accepted), tags }
}

fn clone_tags(tags: &Vec<ErrorTag>) -> (r: Vec<ErrorTag>)
    ensures
        r@.map_values(|t: ErrorTag| t@) == tags@.map_values(|t: ErrorTag| t@),
{
    let r = tags.clone();
    proof {
        assert forall|i: int| 0 <= i < r@.len() implies r@[i] == tags@[i] by {
            assert(vstd::pervasive::cloned(tags@[i], r@[i]));
        }
        assert(r@ =~= tags@);
    }
    r
}

/// What Unicode's case tables say of one text: its lower case form, whether
/// its first character is upper case, and whether it is lower case.
pub struct CaseFactsV {
    pub lower: Seq<char>,
    pub first_upper: bool,
    pub first_lower: bool,
}

/// What Unicode's case tables say of one text: its lower case form, whether
/// its first character is upper case, and whether it is lower case.
#[derive(Debug)]
pub struct CaseFacts {
    pub lower: Vec<char>,
    pub first_upper: bool,
    pub first_lower: bool,
}

impl View for CaseFacts {
    type V = CaseFactsV;

    open spec fn view(&self) -> CaseFactsV {
        CaseFactsV { lower: self.lower@, first_upper: self.first_upper, first_lower: self.first_lower }
    }
}

/// The case facts that hold of a text.
pub open spec fn case_facts(s: Seq<char>) -> CaseFactsV {
    CaseFactsV { lower: lowercase_of(s), first_upper: starts_upper(s), first_lower: starts_lower(s) }
}

pub open spec fn facts_view(v: Seq<CaseFacts>) -> Seq<CaseFactsV> {
    v.map_values(|f: CaseFacts| f@)
}

/// Ask the case tables about a text.
pub fn case_facts_of(v: &Vec<char>) -> (r: CaseFacts)
    ensures
        r@ == case_facts(v@),
{
    CaseFacts {
        lower: lowercase_chars(v),
        first_upper: starts_upper_chars(v),
        first_lower: starts_lower_chars(v),
    }
}

/// The verdict on `given` for a blank, with what the case tables say supplied:
/// `gf` of the cleaned answer, `gtf` of it written the long way, and `af[k]`
/// and `atf[k]` of the `k`th cleaned accepted answer and of it written the long
/// way. With the true facts this is `grade_verdict`.
pub open spec fn verdict_with(
    b: BlankV,
    initial: bool,
    given: Seq<char>,
    gf: CaseFactsV,
    gtf: CaseFactsV,
    af: Seq<CaseFactsV>,
    atf: Seq<CaseFactsV>,
) -> VerdictV {
    let g = clean(given);
    let acc = b.accept.map_values(|a: Seq<char>| clean(a));
    let wrong = VerdictV::Wrong { expected: canonical(b), tags: b.tags };
    if g.len() == 0 {
        wrong
    } else if acc.contains(g) {
        VerdictV::Correct
    } else {
        match first_where(af, |f: CaseFactsV| f.lower == gf.lower) {
            Some(i) => if initial && af[i].first_lower && gf.first_upper {
                VerdictV::Correct
            } else {
                VerdictV::Wrong { expected: acc[i], tags: seq![capitalisation_tag()] }
            },
            None => match first_where(atf, |f: CaseFactsV| f.lower == gtf.lower) {
                Some(i) => {
                    let t = translit(acc[i]);
                    if t == g || (initial && atf[i].first_lower && gf.first_upper && atf[i].lower
                        == gf.lower) {
                        VerdictV::CorrectWithNote { note: spelling_note(acc[i]), expected: acc[i] }
                    } else {
                        VerdictV::Wrong { expected: acc[i], tags: seq![capitalisation_tag()] }
                    }
                },
                None => wrong,
            },
        }
    }
}

/// With what the case tables truly say, `verdict_with` is `grade_verdict`.
pub proof fn lemma_verdict_with_true_facts(
    b: BlankV,
    initial: bool,
    given: Seq<char>,
    af: Seq<CaseFactsV>,
    atf: Seq<CaseFactsV>,
)
    requires
        af.len() == b.accept.len(),
        atf.len() == b.accept.len(),
        forall|k: int| 0 <= k < af.len() ==> #[trigger] af[k] == case_facts(clean(b.accept[k])),
        forall|k: int| 0 <= k < atf.len() ==> #[trigger] atf[k] == case_facts(translit(clean(b.accept[k]))),
    ensures
        verdict_with(
            b,
            initial,
            given,
            case_facts(clean(given)),
            case_facts(translit(clean(given))),
            af,
            atf,
        ) == grade_verdict(b, initial, given),
{
    let g = clean(given);
    let acc = b.accept.map_values(|a: Seq<char>| clean(a));
    let gf = case_facts(g);
    let gtf = case_facts(translit(g));
    let p2 = |a: Seq<char>| same_ignoring_case(a, g);
    let q2 = |f: CaseFactsV| f.lower == gf.lower;
    assert forall|k: int| 0 <= k < acc.len() implies p2(#[trigger] acc[k]) == q2(af[k]) by {
        assert(af[k] == case_facts(clean(b.accept[k])));
    }
    lemma_first_where_same(acc, af, p2, q2);
    let p3 = |a: Seq<char>| fold(a) == fold(g);
    let q3 = |f: CaseFactsV| f.lower == gtf.lower;
    assert forall|k: int| 0 <= k < acc.len() implies p3(#[trigger] acc[k]) == q3(atf[k]) by {
        assert(atf[k] == case_facts(translit(clean(b.accept[k]))));
    }
    lemma_first_where_same(acc, atf, p3, q3);
    crate::find::lemma_first_where(acc, p2);
    crate::find::lemma_first_where(acc, p3);
    if let Some(i) = first_where(acc, p2) {
        assert(af[i] == case_facts(acc[i]));
    }
    if let Some(i) = first_where(acc, p3) {
        assert(atf[i] == case_facts(translit(acc[i])));
    }
}

/// Grade one blank with what the case tables say supplied: `initial` says
/// whether the blank opens its sentence, `given_case` and `given_long_case`
/// describe the cleaned answer and its long spelling, and `accept_case[k]` and
/// `accept_long_case[k]` the `k`th cleaned accepted answer and its long
/// spelling.
#[verifier::loop_isolation(false)]
pub fn grade_with_cases(
    blank: &Blank,
    initial: bool,
    given: &str,
    given_case: &CaseFacts,
    given_long_case: &CaseFacts,
    accept_case: &Vec<CaseFacts>,
    accept_long_case: &Vec<CaseFacts>,
) -> (r: Verdict)
    requires
        accept_case.len() == blank.accept.len(),
        accept_long_case.len() == blank.accept.len(),
    ensures
        r@ == verdict_with(
            blank@,
            initial,
            given@,
            given_case@,
            given_long_case@,
            facts_view(accept_case@),
            facts_view(accept_long_case@),
        ),
{
    let ghost b = blank@;
    let ghost af = facts_view(accept_case@);
    let ghost atf = facts_view(accept_long_case@);
    let g = clean_chars(&chars_of(given));
    let ghost acc = b.accept.map_values(|a: Seq<char>| clean(a));
    if g.len() == 0 {
        let expected = blank.canonical().to_owned();
        return Verdict::Wrong { expected, tags: clone_tags(&blank.tags) };
    }
    // The accept list, cleaned.
    let mut cleaned: Vec<Vec<char>> = Vec::new();
    let mut k: usize = 0;
    while k < blank.accept.len()
        invariant
            k <= blank.accept.len(),
            cleaned@.len() == k,
            forall|m: int| 0 <= m < k ==> (#[trigger] cleaned@[m])@ == acc[m],
        decreases blank.accept.len() - k,
    {
        cleaned.push(clean_chars(&chars_of(blank.accept[k].as_str())));
        k += 1;
    }
    let n = cleaned.len();
    // Pass one: exactly one of the accepted answers.
    let mut k: usize = 0;
    while k < n
        invariant
            k <= n,
            forall|m: int| 0 <= m < k ==> acc[m] != g@,
        decreases n - k,
    {
        if same_chars(&cleaned[k], &g) {
            assert(acc[k as int] == g@);
            return Verdict::Correct;
        }
        k += 1;
    }
    assert(!acc.contains(g@));
    // Pass two: right letters, wrong capitals.
    let ghost q2 = |f: CaseFactsV| f.lower == given_case@.lower;
    let mut k: usize = 0;
    while k < n
        invariant
            k <= n,
            q2 == (|f: CaseFactsV| f.lower == given_case@.lower),
            forall|m: int| 0 <= m < k ==> !q2(#[trigger] af[m]),
        decreases n - k,
    {
        assert(af[k as int] == accept_case@[k as int]@);
        if same_chars(&accept_case[k].lower, &given_case.lower) {
            proof {
                lemma_first_where_at(af, q2, k as int);
            }
            // A word that is normally lowercase may be capitalised when it opens the
            // sentence. Nothing else is forgiven, because noun capitalisation is
            // part of German grammar, not decoration.
            if initial && accept_case[k].first_lower && given_case.first_upper {
                return Verdict::Correct;
            }
            return capitalisation_mistake(&cleaned[k]);
        }
        k += 1;
    }
    proof {
        lemma_first_where_none(af, q2);
    }
    // Pass three: umlauts and sharp s written the long way, `fuer` for `für`.
    let ghost q3 = |f: CaseFactsV| f.lower == given_long_case@.lower;
    let mut k: usize = 0;
    while k < n
        invariant
            k <= n,
            q3 == (|f: CaseFactsV| f.lower == given_long_case@.lower),
            forall|m: int| 0 <= m < k ==> !q3(#[trigger] atf[m]),
        decreases n - k,
    {
        assert(atf[k as int] == accept_long_case@[k as int]@);
        if same_chars(&accept_long_case[k].lower, &given_long_case.lower) {
            proof {
                lemma_first_where_at(atf, q3, k as int);
            }
            // The letters are equivalent. Capitals are judged on the transliterated
            // forms, so "Strasse" is fine for "Straße" but "STRASSE" is not.
            let t = translit_chars(&cleaned[k]);
            let capitals_ok = same_chars(&t, &g) || (initial && accept_long_case[k].first_lower
                && given_case.first_upper && same_chars(&accept_long_case[k].lower, &given_case.lower));
            if !capitals_ok {
                return capitalisation_mistake(&cleaned[k]);
            }
            let mut note: Vec<char> = Vec::new();
            push_str(&mut note, "`");
            push_chars(&mut note, &cleaned[k]);
            push_str(&mut note, "` is the normal spelling");
            proof {
                assert(note@ =~= spelling_note(acc[k as int]));
            }
            return Verdict::CorrectWithNote { note: string_of(&note), expected: string_of(&cleaned[k]) };
        }
        k += 1;
    }
    proof {
        lemma_first_where_none(atf, q3);
    }
    let expected = blank.canonical().to_owned();
    Verdict::Wrong { expected, tags: clone_tags(&blank.tags) }
}

/// Grade one blank against everything its accept list allows.
pub fn grade_blank(blank: &Blank, item: &Item, given: &str) -> (r: Verdict)
    ensures
        r@ == grade_verdict(blank@, sentence_initial(item@.segments, blank@.id), given@),
{
    let ghost b = blank@;
    let g = clean_chars(&chars_of(given));
    let given_case = case_facts_of(&g);
    let given_long_case = case_facts_of(&translit_chars(&g));
    let mut accept_case: Vec<CaseFacts> = Vec::new();
    let mut accept_long_case: Vec<CaseFacts> = Vec::new();
    let mut k: usize = 0;
    while k < blank.accept.len()
        invariant
            k <= blank.accept.len(),
            b == blank@,
            accept_case.len() == k,
            accept_long_case.len() == k,
            forall|m: int| 0 <= m < k ==> (#[trigger] accept_case@[m])@ == case_facts(clean(b.accept[m])),
            forall|m: int|
                0 <= m < k ==> (#[trigger] accept_long_case@[m])@ == case_facts(translit(clean(b.accept[m]))),
        decreases blank.accept.len() - k,
    {
        let c = clean_chars(&chars_of(blank.accept[k].as_str()));
        accept_case.push(case_facts_of(&c));
        accept_long_case.push(case_facts_of(&translit_chars(&c)));
        k += 1;
    }
    let initial = item.is_sentence_initial(blank.id.as_str());
    let r = grade_with_cases(blank, initial, given, &given_case, &given_long_case, &accept_case, &accept_long_case);
    proof {
        let af = facts_view(accept_case@);
        let atf = facts_view(accept_long_case@);
        assert forall|m: int| 0 <= m < af.len() implies #[trigger] af[m] == case_facts(clean(b.accept[m])) by {
            assert(af[m] == accept_case@[m]@);
        }
        assert forall|m: int| 0 <= m < atf.len() implies #[trigger] atf[m] == case_facts(translit(clean(b.accept[m]))) by {
            assert(atf[m] == accept_long_case@[m]@);
        }
        lemma_verdict_with_true_facts(b, initial, given@, af, atf);
    }
    r
}

// ---------------------------------------------------------------- ratings

/// Score to FSRS button, for the score `part / whole` (no blanks at all is a
/// score of zero). Under 60% is Again, under 80% Hard, under 95% Good, the rest
/// Easy. The boundaries are deliberate: a sheet where one blank in five is wrong
/// is not a sheet you have learned.
pub open spec fn score_rating(part: int, whole: int) -> Rating {
    if whole <= 0 || 100 * part < 60 * whole {
        Rating::Again
    } else if 100 * part < 80 * whole {
        Rating::Hard
    } else if 100 * part < 95 * whole {
        Rating::Good
    } else {
        Rating::Easy
    }
}

/// The rating a score of `part / whole` earns.
pub fn rating_for(part: u64, whole: u64) -> (r: Rating)
    ensures
        r == score_rating(part as int, whole as int),
{
    let p: u128 = part as u128 * 100;
    let w: u128 = whole as u128;
    if whole == 0 || p < 60 * w {
        Rating::Again
    } else if p < 80 * w {
        Rating::Hard
    } else if p < 95 * w {
        Rating::Good
    } else {
        Rating::Easy
    }
}

// ---------------------------------------------------------------- sheets

/// An answer filed under this blank id.
pub open spec fn filed_under(id: Seq<char>) -> spec_fn((Seq<char>, Seq<char>)) -> bool {
    |p: (Seq<char>, Seq<char>)| p.0 == id
}

/// What the user typed for a blank: the first answer filed under its id, or
/// nothing at all.
pub open spec fn answer_for(answers: Seq<(Seq<char>, Seq<char>)>, id: Seq<char>) -> Seq<char> {
    match first_where(answers, filed_under(id)) {
        Some(i) => answers[i].1,
        None => seq![],
    }
}

pub open spec fn answers_view(answers: Seq<(String, String)>) -> Seq<(Seq<char>, Seq<char>)> {
    answers.map_values(|p: (String, String)| (p.0@, p.1@))
}

/// The result for one blank of an item.
pub open spec fn blank_result(it: ItemV, b: BlankV, answers: Seq<(Seq<char>, Seq<char>)>) -> ResultV {
    let given = answer_for(answers, b.id);
    ResultV {
        blank_id: b.id,
        given,
        verdict: grade_verdict(b, sentence_initial(it.segments, b.id), given),
    }
}

/// The results for every blank of an item, in order.
pub open spec fn item_results(it: ItemV, answers: Seq<(Seq<char>, Seq<char>)>) -> Seq<ResultV> {
    blanks_of(it.segments).map_values(|b: BlankV| blank_result(it, b, answers))
}

/// The results for every blank of every item, in reading order.
pub open spec fn sheet_results(items: Seq<ItemV>, answers: Seq<(Seq<char>, Seq<char>)>) -> Seq<ResultV>
    decreases items.len(),
{
    if items.len() == 0 {
        seq![]
    } else {
        sheet_results(items.drop_last(), answers) + item_results(items.last(), answers)
    }
}

/// How many results count as correct.
pub open spec fn count_correct(rs: Seq<ResultV>) -> nat
    decreases rs.len(),
{
    if rs.len() == 0 {
        0
    } else {
        count_correct(rs.drop_last()) + if counts_as_correct(rs.last().verdict) {
            1nat
        } else {
            0nat
        }
    }
}

pub proof fn lemma_count_correct_le(a: Seq<ResultV>)
    ensures
        count_correct(a) <= a.len(),
    decreases a.len(),
{
    if a.len() > 0 {
        lemma_count_correct_le(a.drop_last());
    }
}

fn answer_lookup(answers: &Vec<(String, String)>, id: &String) -> (r: String)
    ensures
        r@ == answer_for(answers_view(answers@), id@),
{
    let ghost av = answers_view(answers@);
    let ghost p = filed_under(id@);
    let want = chars_of(id.as_str());
    let mut k: usize = 0;
    while k < answers.len()
        invariant
            k <= answers.len(),
            av == answers_view(answers@),
            p == filed_under(id@),
            want@ == id@,
            forall|m: int| 0 <= m < k ==> !p(#[trigger] av[m]),
        decreases answers.len() - k,
    {
        if same_chars(&chars_of(answers[k].0.as_str()), &want) {
            proof {
                lemma_first_where_at(av, p, k as int);
            }
            return answers[k].1.clone();
        }
        k += 1;
    }
    proof {
        lemma_first_where_none(av, p);
        reveal_strlit("");
    }
    let r = String::new();
    r
}

/// Grade every blank of an item against the answers given, in order.
pub fn grade_item_blanks(item: &Item, answers: &Vec<(String, String)>) -> (r: Vec<BlankResult>)
    ensures
        r@.map_values(|x: BlankResult| x@) == item_results(item@, answers_view(answers@)),
{
    let blanks = item.blanks();
    let ghost want = item_results(item@, answers_view(answers@));
    let mut r: Vec<BlankResult> = Vec::new();
    let mut k: usize = 0;
    while k < blanks.len()
        invariant
            k <= blanks.len(),
            want == item_results(item@, answers_view(answers@)),
            blanks@.len() == blanks_of(item@.segments).len(),
            forall|m: int| 0 <= m < blanks@.len() ==> (#[trigger] blanks@[m])@ == blanks_of(item@.segments)[m],
            r@.map_values(|x: BlankResult| x@) == want.take(k as int),
        decreases blanks.len() - k,
    {
        let blank = blanks[k];
        let given = answer_lookup(answers, &blank.id);
        let verdict = grade_blank(blank, item, given.as_str());
        let ghost before = r@.map_values(|x: BlankResult| x@);
        r.push(BlankResult { blank_id: blank.id.clone(), given, verdict });
        proof {
            assert(blanks@[k as int]@ == blanks_of(item@.segments)[k as int]);
            assert(r@.map_values(|x: BlankResult| x@) =~= before.push(want[k as int]));
            assert(want.take(k + 1) =~= want.take(k as int).push(want[k as int]));
        }
        k += 1;
    }
    assert(want.take(blanks.len() as int) =~= want);
    r
}

fn count_correct_in(results: &Vec<BlankResult>) -> (r: usize)
    ensures
        r == count_correct(results@.map_values(|x: BlankResult| x@)),
{
    let ghost rs = results@.map_values(|x: BlankResult| x@);
    let mut c: usize = 0;
    let mut k: usize = 0;
    while k < results.len()
        invariant
            k <= results.len(),
            rs == results@.map_values(|x: BlankResult| x@),
            c == count_correct(rs.take(k as int)),
        decreases results.len() - k,
    {
        proof {
            assert(rs.take(k + 1).drop_last() =~= rs.take(k as int));
            lemma_count_correct_le(rs.take(k as int));
        }
        if results[k].verdict.is_correct() {
            c += 1;
        }
        k += 1;
    }
    assert(rs.take(results.len() as int) =~= rs);
    c
}

/// Results tallied: how many count as correct, out of how many, and the rating
/// that score earns.
pub open spec fn tallied(results: Seq<ResultV>) -> GradedV {
    GradedV {
        results,
        correct: count_correct(results),
        total: results.len(),
        rating: score_rating(count_correct(results) as int, results.len() as int),
    }
}

/// What grading a whole sheet gives: every blank graded in reading order, a
/// blank with no answer counted as wrong, and the rating its score earns.
pub open spec fn graded(items: Seq<ItemV>, answers: Seq<(Seq<char>, Seq<char>)>) -> GradedV {
    tallied(sheet_results(items, answers))
}

/// Tally graded results.
pub fn tally(results: Vec<BlankResult>) -> (r: GradedSheet)
    ensures
        r@ == tallied(results@.map_values(|x: BlankResult| x@)),
{
    let total = results.len();
    let correct = count_correct_in(&results);
    proof {
        lemma_count_correct_le(results@.map_values(|x: BlankResult| x@));
    }
    let rating = rating_for(correct as u64, total as u64);
    GradedSheet { results, correct, total, rating }
}

/// Grade a whole sheet. A blank with no answer counts as wrong.
pub fn grade_sheet(sheet: &Sheet, answers: &Vec<(String, String)>) -> (r: GradedSheet)
    ensures
        r@ == graded(sheet@.items, answers_view(answers@)),
{
    let ghost items = sheet@.items;
    let ghost av = answers_view(answers@);
    let mut results: Vec<BlankResult> = Vec::new();
    let mut i: usize = 0;
    while i < sheet.items.len()
        invariant
            i <= sheet.items.len(),
            items == sheet@.items,
            av == answers_view(answers@),
            results@.map_values(|x: BlankResult| x@) == sheet_results(items.take(i as int), av),
        decreases sheet.items.len() - i,
    {
        let mut more = grade_item_blanks(&sheet.items[i], answers);
        let ghost before = results@.map_values(|x: BlankResult| x@);
        let ghost add = more@.map_values(|x: BlankResult| x@);
        results.append(&mut more);
        proof {
            assert(items.take(i + 1).drop_last() =~= items.take(i as int));
            assert(results@.map_values(|x: BlankResult| x@) =~= before + add);
        }
        i += 1;
    }
    assert(items.take(sheet.items.len() as int) =~= items);
    tally(results)
}

// ---------------------------------------------------------------- laws

proof fn lemma_clean_empty()
    ensures
        clean(Seq::<char>::empty()).len() == 0,
{
    let e = Seq::<char>::empty();
    assert(words(e) =~= Seq::<Seq<char>>::empty());
    assert(collapse(e) =~= e);
}

/// An answer that cleans down to nothing is wrong, and shows the canonical
/// answer with the blank's own tags.
pub proof fn law_empty_answer_is_wrong(b: BlankV, initial: bool, given: Seq<char>)
    requires
        clean(given).len() == 0,
    ensures
        grade_verdict(b, initial, given) == (VerdictV::Wrong { expected: canonical(b), tags: b.tags }),
{
}

/// Any accepted answer is right, once typed whitespace and stray punctuation
/// are cleaned away.
pub proof fn law_accepted_answer_is_correct(b: BlankV, initial: bool, given: Seq<char>, k: int)
    requires
        0 <= k < b.accept.len(),
        clean(b.accept[k]) == clean(given),
        clean(given).len() > 0,
    ensures
        grade_verdict(b, initial, given) == VerdictV::Correct,
{
    let acc = b.accept.map_values(|a: Seq<char>| clean(a));
    assert(acc[k] == clean(given));
}

/// Error tags are never guessed from a wrong answer: a wrong verdict carries
/// either the tags the blank was written with, or the capitalisation tag.
pub proof fn law_tags_are_never_guessed(b: BlankV, initial: bool, given: Seq<char>)
    ensures
        grade_verdict(b, initial, given) matches VerdictV::Wrong { tags, .. } ==> (tags == b.tags
            || tags == seq![capitalisation_tag()]),
{
}

/// A blank nobody answered is wrong.
pub proof fn law_missing_answer_is_wrong(it: ItemV, b: BlankV, answers: Seq<(Seq<char>, Seq<char>)>)
    requires
        forall|k: int| 0 <= k < answers.len() ==> (#[trigger] answers[k]).0 != b.id,
    ensures
        !counts_as_correct(blank_result(it, b, answers).verdict),
        blank_result(it, b, answers).given.len() == 0,
{
    let p = filed_under(b.id);
    assert forall|k: int| 0 <= k < answers.len() implies !p(#[trigger] answers[k]) by {
        assert(answers[k].0 != b.id);
    }
    lemma_first_where_none(answers, p);
    assert(answer_for(answers, b.id) == Seq::<char>::empty());
    lemma_clean_empty();
}

/// "Also accept" makes the answer right: once an answer has been also
/// accepted for a blank, grading that same answer again is correct (unless
/// the answer cleans down to nothing, which no blank can accept).
pub proof fn law_also_accepted_answer_is_correct(s: SheetV, id: Seq<char>, answer: Seq<char>)
    requires
        find_blank(s.items, id) is Some,
        clean(answer).len() > 0,
    ensures
        ({
            let s2 = accept_also_result(s, id, answer).0;
            let loc = find_blank(s.items, id)->0;
            &&& find_blank(s2.items, id) == Some(loc)
            &&& grade_verdict(
                blank_at(s2.items, loc),
                sentence_initial(s2.items[loc.0].segments, id),
                answer,
            ) == VerdictV::Correct
        }),
{
    lemma_collapse_trim(answer);
    let t = trim(answer);
    if t.len() == 0 {
        assert(t =~= Seq::<char>::empty());
        lemma_clean_empty();
    }
    law_accept_also_accepts(s, id, answer);
    let s2 = accept_also_result(s, id, answer).0;
    let loc = find_blank(s.items, id)->0;
    let b = blank_at(s2.items, loc);
    let k = choose|k: int| 0 <= k < b.accept.len() && b.accept[k] == t;
    assert(clean(b.accept[k]) == clean(answer));
    law_accepted_answer_is_correct(b, sentence_initial(s2.items[loc.0].segments, id), answer, k);
}

proof fn lemma_threshold(p1: int, w1: int, p2: int, w2: int, t: int)
    requires
        w1 > 0,
        w2 > 0,
        p1 * w2 <= p2 * w1,
    ensures
        100 * p2 < t * w2 ==> 100 * p1 < t * w1,
{
    if 100 * p2 < t * w2 {
        assert(100 * p1 * w2 <= 100 * p2 * w1) by (nonlinear_arith)
            requires
                p1 * w2 <= p2 * w1,
        ;
        assert(100 * p2 * w1 < t * w1 * w2) by (nonlinear_arith)
            requires
                100 * p2 < t * w2,
                w1 > 0,
        ;
        assert(100 * p1 < t * w1) by (nonlinear_arith)
            requires
                100 * p1 * w2 < t * w1 * w2,
                w2 > 0,
        ;
    }
}

/// A better score never earns a worse rating.
pub proof fn law_better_scores_rate_no_lower(p1: int, w1: int, p2: int, w2: int)
    requires
        w1 > 0,
        w2 > 0,
        p1 * w2 <= p2 * w1,
    ensures
        fsrs_button(score_rating(p1, w1)) <= fsrs_button(score_rating(p2, w2)),
{
    lemma_threshold(p1, w1, p2, w2, 60);
    lemma_threshold(p1, w1, p2, w2, 80);
    lemma_threshold(p1, w1, p2, w2, 95);
    assert(100 * p2 < 60 * w2 ==> 100 * p1 < 60 * w1);
    assert(100 * p2 < 80 * w2 ==> 100 * p1 < 80 * w1);
    assert(100 * p2 < 95 * w2 ==> 100 * p1 < 95 * w1);
}

/// A graded sheet never counts more right answers than blanks.
pub proof fn law_correct_is_at_most_total(items: Seq<ItemV>, answers: Seq<(Seq<char>, Seq<char>)>)
    ensures
        graded(items, answers).correct <= graded(items, answers).total,
{
    lemma_count_correct_le(sheet_results(items, answers));
}

/// None of the letters that have a long spelling: no umlaut and no sharp s.
pub open spec fn has_no_umlaut(s: Seq<char>) -> bool {
    forall|k: int|
        0 <= k < s.len() ==> #[trigger] s[k] != 'ä' && s[k] != 'ö' && s[k] != 'ü' && s[k] != 'Ä'
            && s[k] != 'Ö' && s[k] != 'Ü' && s[k] != 'ß'
}

/// Spelling the long way works piece by piece.
proof fn lemma_translit_append(s: Seq<char>, t: Seq<char>)
    ensures
        translit(s + t) == translit(s) + translit(t),
    decreases t.len(),
{
    if t.len() == 0 {
        assert(s + t =~= s);
        assert(translit(s) + translit(t) =~= translit(s));
    } else {
        lemma_translit_append(s, t.drop_last());
        assert((s + t).drop_last() =~= s + t.drop_last());
        assert(translit(s) + translit(t.drop_last()) + translit_char(t.last()) =~= translit(s) + (
        translit(t.drop_last()) + translit_char(t.last())));
    }
}

/// A text without umlauts or sharp s has no other long spelling.
proof fn lemma_translit_plain(s: Seq<char>)
    requires
        has_no_umlaut(s),
    ensures
        translit(s) == s,
    decreases s.len(),
{
    if s.len() > 0 {
        assert(has_no_umlaut(s.drop_last())) by {
            assert forall|k: int| 0 <= k < s.drop_last().len() implies #[trigger] s.drop_last()[k]
                != 'ä' && s.drop_last()[k] != 'ö' && s.drop_last()[k] != 'ü' && s.drop_last()[k]
                != 'Ä' && s.drop_last()[k] != 'Ö' && s.drop_last()[k] != 'Ü' && s.drop_last()[k]
                != 'ß' by {
                assert(s.drop_last()[k] == s[k]);
            }
        }
        lemma_translit_plain(s.drop_last());
        assert(s[s.len() - 1] == s.last());
        assert(s.drop_last().push(s.last()) =~= s);
    }
}

/// Writing an umlaut or sharp s the long way is accepted with a note. Where an
/// accepted answer is `x`, then one of ä ö ü Ä Ö Ü ß, then `y`, and `x` and `y`
/// hold no other such letter, the answer `x`, then ae oe ue Ae Oe Ue or ss
/// respectively, then `y`, is correct with the note that the accepted answer is
/// the normal spelling, in any position in the sentence. This holds where
/// nothing else decides first: both spellings are already clean, no accepted
/// answer is the long spelling itself or the same letters in other capitals,
/// and no earlier accepted answer has the same long spelling.
pub proof fn law_long_spellings_are_accepted_with_a_note(
    b: BlankV,
    initial: bool,
    k: int,
    x: Seq<char>,
    c: char,
    long: Seq<char>,
    y: Seq<char>,
)
    requires
        0 <= k < b.accept.len(),
        b.accept[k] == x + seq![c] + y,
        (c == 'ä' && long == seq!['a', 'e']) || (c == 'ö' && long == seq!['o', 'e']) || (c == 'ü'
            && long == seq!['u', 'e']) || (c == 'Ä' && long == seq!['A', 'e']) || (c == 'Ö' && long
            == seq!['O', 'e']) || (c == 'Ü' && long == seq!['U', 'e']) || (c == 'ß' && long
            == seq!['s', 's']),
        has_no_umlaut(x),
        has_no_umlaut(y),
        clean(b.accept[k]) == b.accept[k],
        clean(x + long + y) == x + long + y,
        forall|j: int| 0 <= j < b.accept.len() ==> clean(#[trigger] b.accept[j]) != x + long + y,
        forall|j: int|
            0 <= j < b.accept.len() ==> lowercase_of(clean(#[trigger] b.accept[j])) != lowercase_of(
                x + long + y,
            ),
        forall|j: int|
            0 <= j < k ==> fold(clean(#[trigger] b.accept[j])) != fold(x + long + y),
    ensures
        grade_verdict(b, initial, x + long + y) == (VerdictV::CorrectWithNote {
            note: spelling_note(b.accept[k]),
            expected: b.accept[k],
        }),
{
    let g = x + long + y;
    let acc = b.accept.map_values(|a: Seq<char>| clean(a));
    assert(g.len() > 0) by {
        assert(g[x.len() as int] == long[0]);
    }
    assert(!acc.contains(g)) by {
        if acc.contains(g) {
            let j = choose|j: int| 0 <= j < acc.len() && acc[j] == g;
            assert(clean(b.accept[j]) != g);
        }
    }
    let p2 = |a: Seq<char>| same_ignoring_case(a, g);
    assert forall|j: int| 0 <= j < acc.len() implies !p2(#[trigger] acc[j]) by {
        assert(lowercase_of(clean(b.accept[j])) != lowercase_of(g));
    }
    lemma_first_where_none(acc, p2);
    // the long spelling of the accepted answer is the answer given
    assert(translit(seq![c]) == translit_char(c)) by {
        let one = seq![c];
        assert(one.drop_last() =~= Seq::<char>::empty());
        assert(one.last() == c);
        assert(translit(one.drop_last()) == Seq::<char>::empty());
        assert(Seq::<char>::empty() + translit_char(c) =~= translit_char(c));
    }
    assert(translit(long) == long) by {
        reveal_with_fuel(translit, 3);
        assert(long.drop_last().drop_last() =~= Seq::<char>::empty());
        assert(long.drop_last() =~= seq![long[0]]);
    }
    lemma_translit_plain(x);
    lemma_translit_plain(y);
    lemma_translit_append(x, seq![c]);
    lemma_translit_append(x + seq![c], y);
    lemma_translit_append(x, long);
    lemma_translit_append(x + long, y);
    assert(translit(b.accept[k]) == g);
    assert(translit(g) == g);
    let p3 = |a: Seq<char>| fold(a) == fold(g);
    assert(acc[k] == b.accept[k]);
    assert(p3(acc[k]));
    assert forall|j: int| 0 <= j < k implies !p3(#[trigger] acc[j]) by {
        assert(fold(clean(b.accept[j])) != fold(g));
    }
    lemma_first_where_at(acc, p3, k);
}

} // verus!
