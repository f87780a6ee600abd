//! Validating a language pack.
//!
//! A malformed pack stops the server from starting. That is on purpose: a typo
//! in a topic id should be a loud failure at boot, not a silently missing topic
//! in the middle of a study session.

use vstd::prelude::*;

use crate::domain::{first_of, lemma_first_of, lemma_first_of_at, level_name, level_rank, Level};
use crate::find::{first_some, first_where, lemma_first_some_found, lemma_first_where, lemma_first_where_at, lemma_first_where_none};
use crate::text::{all_space, blank_chars, chars_of, decimal, decimal_chars, push_chars, push_str, same_chars, string_of};

verus! {

/// Whether a topic has ever been studied before lacuna existed.
#[derive(Debug, Clone, Copy, PartialEq, Eq, Structural)]
pub enum TopicStatus {
    /// Never studied. The scheduler introduces these as new.
    New,
    /// Studied elsewhere already, so it starts as a review rather than a lesson.
    Known,
}

impl Default for TopicStatus {
    fn default() -> (r: Self)
        ensures
            r == TopicStatus::Known,
    {
        TopicStatus::Known
    }
}

pub struct TopicV {
    pub id: Seq<char>,
    pub cefr: Level,
    pub stage: u32,
    pub category: Seq<char>,
    pub title: Seq<char>,
    pub goal: Seq<char>,
    pub status: TopicStatus,
}

#[derive(Debug)]
pub struct Topic {
    pub id: String,
    pub cefr: Level,
    pub stage: u32,
    pub category: String,
    pub title: String,
    pub goal: String,
    pub status: TopicStatus,
}

impl View for Topic {
    type V = TopicV;

    open spec fn view(&self) -> TopicV {
        TopicV {
            id: self.id@,
            cefr: self.cefr,
            stage: self.stage,
            category: self.category@,
            title: self.title@,
            goal: self.goal@,
            status: self.status,
        }
    }
}

/// One `[[topic]]` entry of a pack's `topics.toml`, as written.
#[derive(Debug)]
pub struct TopicDef {
    pub id: String,
    pub cefr: Level,
    pub stage: u32,
    pub category: String,
    pub title: String,
    pub goal: String,
    pub status: TopicStatus,
}

impl View for TopicDef {
    type V = TopicV;

    open spec fn view(&self) -> TopicV {
        TopicV {
            id: self.id@,
            cefr: self.cefr,
            stage: self.stage,
            category: self.category@,
            title: self.title@,
            goal: self.goal@,
            status: self.status,
        }
    }
}

pub struct PackV {
    pub language: Seq<char>,
    pub topics: Seq<TopicV>,
}

#[derive(Debug)]
pub struct Pack {
    pub language: String,
    /// Sorted by level, then by teaching stage inside that level.
    pub topics: Vec<Topic>,
}

impl View for Pack {
    type V = PackV;

    open spec fn view(&self) -> PackV {
        PackV { language: self.language@, topics: self.topics@.map_values(|t: Topic| t@) }
    }
}

/// A pack whose contents break a rule.
#[derive(Debug)]
pub enum PackError {
    Invalid { language: String, message: String },
}

impl View for PackError {
    type V = (Seq<char>, Seq<char>);

    open spec fn view(&self) -> (Seq<char>, Seq<char>) {
        match self {
            PackError::Invalid { language, message } => (language@, message@),
        }
    }
}

/// How an invalid pack is reported.
pub open spec fn pack_error_text(e: (Seq<char>, Seq<char>)) -> Seq<char> {
    "pack `"@ + e.0 + "` is invalid: "@ + e.1
}

impl PackError {
    fn invalid(language: &str, message: &Vec<char>) -> (r: PackError)
        ensures
            r@ == (language@, message@),
    {
        PackError::Invalid { language: language.to_owned(), message: string_of(message) }
    }

    /// The error written out as `pack `<language>` is invalid: <message>`.
    pub fn to_string(&self) -> (r: String)
        ensures
            r@ == pack_error_text(self@),
    {
        match self {
            PackError::Invalid { language, message } => {
                let mut m: Vec<char> = Vec::new();
                push_str(&mut m, "pack `");
                push_str(&mut m, language.as_str());
                push_str(&mut m, "` is invalid: ");
                push_str(&mut m, message.as_str());
                proof {
                    assert(m@ =~= pack_error_text(self@));
                }
                string_of(&m)
            },
        }
    }
}

// ---------------------------------------------------------------- topic ids

pub open spec fn is_id_char(c: char) -> bool {
    ('a' <= c && c <= 'z') || ('0' <= c && c <= '9') || c == '_' || c == '.'
}

/// What is wrong with a topic id, if anything. Topic ids look like
/// `cases.dative_prepositions`: one dot, lowercase ascii.
pub open spec fn id_problem(id: Seq<char>) -> Option<Seq<char>> {
    let i = first_of(id, '.');
    if i < 0 {
        Some("topic id `"@ + id + "` must look like `category.topic`"@)
    } else if i == 0 || i + 1 == id.len() {
        Some("topic id `"@ + id + "` has an empty half"@)
    } else if first_of(id.skip(i + 1), '.') >= 0 {
        Some("topic id `"@ + id + "` has more than one dot"@)
    } else if !(forall|j: int| 0 <= j < id.len() ==> is_id_char(#[trigger] id[j])) {
        Some("topic id `"@ + id + "` must be lowercase ascii, digits, underscore or dot"@)
    } else {
        None
    }
}

/// Topic ids of the documented shape are good ids: lowercase ascii letters,
/// digits and underscores on both sides of one dot, neither side empty, as in
/// `cases.dative_prepositions`.
pub proof fn law_ids_of_the_documented_shape_are_accepted(category: Seq<char>, topic: Seq<char>)
    requires
        category.len() > 0,
        topic.len() > 0,
        forall|j: int|
            0 <= j < category.len() ==> ('a' <= #[trigger] category[j] <= 'z') || ('0' <= category[j]
                <= '9') || category[j] == '_',
        forall|j: int|
            0 <= j < topic.len() ==> ('a' <= #[trigger] topic[j] <= 'z') || ('0' <= topic[j] <= '9')
                || topic[j] == '_',
    ensures
        id_problem(category + seq!['.'] + topic) is None,
{
    let id = category + seq!['.'] + topic;
    let d = category.len() as int;
    assert forall|j: int| 0 <= j < d implies id[j] != '.' by {
        assert(id[j] == category[j]);
    }
    lemma_first_of_at(id, '.', d);
    assert(id.skip(d + 1) =~= topic);
    lemma_first_of(topic, '.');
    assert forall|j: int| 0 <= j < topic.len() implies topic[j] != '.' by {
        assert(('a' <= topic[j] <= 'z') || ('0' <= topic[j] <= '9') || topic[j] == '_');
    }
    assert forall|j: int| 0 <= j < id.len() implies is_id_char(#[trigger] id[j]) by {
        if j < d {
            assert(id[j] == category[j]);
        } else if j > d {
            assert(id[j] == topic[j - d - 1]);
        }
    }
}

/// Only ids of the documented shape are good ids: an id with no problem has
/// exactly one dot, with something on both sides of it, and every other
/// character is a lowercase ascii letter, a digit or an underscore.
pub proof fn law_accepted_ids_have_the_documented_shape(id: Seq<char>)
    requires
        id_problem(id) is None,
    ensures
        exists|d: int|
            0 < d < id.len() - 1 && #[trigger] id[d] == '.' && forall|j: int|
                0 <= j < id.len() && j != d ==> ('a' <= #[trigger] id[j] <= 'z') || ('0' <= id[j]
                    <= '9') || id[j] == '_',
{
    let d = first_of(id, '.');
    lemma_first_of(id, '.');
    let rest = id.skip(d + 1);
    lemma_first_of(rest, '.');
    assert forall|j: int| 0 <= j < id.len() && j != d implies ('a' <= #[trigger] id[j] <= 'z') || (
    '0' <= id[j] <= '9') || id[j] == '_' by {
        assert(is_id_char(id[j]));
        if j > d {
            assert(rest[j - d - 1] == id[j]);
        }
    }
}

fn quoted_id(prefix: &str, id: &Vec<char>, suffix: &str) -> (r: Vec<char>)
    ensures
        r@ == prefix@ + id@ + suffix@,
{
    let mut m: Vec<char> = Vec::new();
    push_str(&mut m, prefix);
    push_chars(&mut m, id);
    push_str(&mut m, suffix);
    proof {
        assert(m@ =~= prefix@ + id@ + suffix@);
    }
    m
}

fn find_char_from(v: &Vec<char>, from: usize, c: char) -> (r: Option<usize>)
    requires
        from <= v.len(),
    ensures
        match r {
            Some(i) => from <= i < v.len() && first_of(v@.skip(from as int), c) == i - from,
            None => first_of(v@.skip(from as int), c) < 0,
        },
{
    let ghost t = v@.skip(from as int);
    let mut i: usize = from;
    while i < v.len()
        invariant
            from <= i <= v.len(),
            t == v@.skip(from as int),
            forall|j: int| 0 <= j < i - from ==> t[j] != c,
        decreases v.len() - i,
    {
        if v[i] == c {
            proof {
                lemma_first_of_at(t, c, i - from);
            }
            return Some(i);
        }
        i += 1;
    }
    proof {
        lemma_first_of(t, c);
    }
    None
}

/// The problem with a topic id, as a message.
#[verifier::loop_isolation(false)]
fn id_problem_of(id: &Vec<char>) -> (r: Option<Vec<char>>)
    ensures
        match id_problem(id@) {
            None => r is None,
            Some(m) => r matches Some(x) && x@ == m,
        },
{
    let dot = find_char_from(id, 0, '.');
    assert(id@.skip(0) =~= id@);
    match dot {
        None => Some(quoted_id("topic id `", id, "` must look like `category.topic`")),
        Some(i) => {
            if i == 0 || i + 1 == id.len() {
                return Some(quoted_id("topic id `", id, "` has an empty half"));
            }
            let again = find_char_from(id, i + 1, '.');
            if again.is_some() {
                return Some(quoted_id("topic id `", id, "` has more than one dot"));
            }
            let mut j: usize = 0;
            while j < id.len()
                invariant
                    j <= id.len(),
                    forall|k: int| 0 <= k < j ==> is_id_char(#[trigger] id@[k]),
                decreases id.len() - j,
            {
                let c = id[j];
                if !(('a' <= c && c <= 'z') || ('0' <= c && c <= '9') || c == '_' || c == '.') {
                    assert(!is_id_char(id@[j as int]));
                    return Some(
                        quoted_id(
                            "topic id `",
                            id,
                            "` must be lowercase ascii, digits, underscore or dot",
                        ),
                    );
                }
                j += 1;
            }
            None
        },
    }
}

// ---------------------------------------------------------------- topics

/// What is wrong with topic `i` of a pack, given the topics before it, if anything.
pub open spec fn def_problem(defs: Seq<TopicV>, i: int) -> Option<Seq<char>> {
    let d = defs[i];
    match id_problem(d.id) {
        Some(m) => Some(m),
        None => if exists|j: int| 0 <= j < i && (#[trigger] defs[j]).id == d.id {
            Some("duplicate topic id `"@ + d.id + "`"@)
        } else if exists|j: int|
            0 <= j < i && (#[trigger] defs[j]).cefr == d.cefr && defs[j].stage == d.stage {
            Some(
                "two topics share stage "@ + decimal(d.stage as nat) + " in "@ + level_name(d.cefr),
            )
        } else if d.stage == 0 {
            Some("topic `"@ + d.id + "` has stage 0, stages start at 1"@)
        } else if all_space(d.category) {
            Some("topic `"@ + d.id + "` has an empty category"@)
        } else if all_space(d.title) {
            Some("topic `"@ + d.id + "` has an empty title"@)
        } else if all_space(d.goal) {
            Some("topic `"@ + d.id + "` has an empty goal"@)
        } else {
            None
        },
    }
}

/// The teaching stages of the topics of one level, in pack order.
pub open spec fn level_stages(defs: Seq<TopicV>, l: Level) -> Seq<int>
    decreases defs.len(),
{
    if defs.len() == 0 {
        seq![]
    } else if defs.last().cefr == l {
        level_stages(defs.drop_last(), l).push(defs.last().stage as int)
    } else {
        level_stages(defs.drop_last(), l)
    }
}

/// The smallest stage above `m`, or -1 when there is none.
pub open spec fn min_above(st: Seq<int>, m: int) -> int
    decreases st.len(),
{
    if st.len() == 0 {
        -1
    } else {
        let rest = min_above(st.drop_last(), m);
        let x = st.last();
        if x > m && (rest < 0 || x < rest) {
            x
        } else {
            rest
        }
    }
}

/// The stage that stands where stage `m` should: the smallest one above it.
/// (Some stage always lies above a missing one once every stage of the level is
/// distinct and positive, which the topic checks make sure of before stages are
/// looked at; otherwise this reads 0.)
pub open spec fn found_stage(st: Seq<int>, m: int) -> nat {
    let f = min_above(st, m);
    if f < 0 {
        0
    } else {
        f as nat
    }
}

/// The first stage of `1..=n` a level is missing, where `n` is its number of
/// topics.
pub open spec fn missing_stage(st: Seq<int>) -> Option<int> {
    match first_where(Seq::new(st.len(), |k: int| k + 1), |x: int| !st.contains(x)) {
        Some(k) => Some(k + 1),
        None => None,
    }
}

/// What is wrong with the stages of one level, if anything. Stages must be a
/// gapless `1..n` run inside each level: when one is missing, the message names
/// the first missing stage and the stage that stands in its place in teaching
/// order, the smallest one above it.
pub open spec fn stage_problem(defs: Seq<TopicV>, l: Level) -> Option<Seq<char>> {
    let st = level_stages(defs, l);
    match missing_stage(st) {
        None => None,
        Some(m) => Some(
            level_name(l) + " stages must run 1.."@ + decimal(st.len()) + ", found "@ + decimal(
                found_stage(st, m),
            ) + " where "@ + decimal(m as nat) + " was expected"@,
        ),
    }
}

/// The levels in curriculum order.
pub open spec fn level_at(k: int) -> Level {
    if k == 0 {
        Level::A1
    } else if k == 1 {
        Level::A2
    } else if k == 2 {
        Level::B1
    } else if k == 3 {
        Level::B2
    } else if k == 4 {
        Level::C1
    } else {
        Level::C2
    }
}

/// The first rule a pack breaks, topic by topic and then level by level.
pub open spec fn pack_problem(defs: Seq<TopicV>) -> Option<Seq<char>> {
    if defs.len() == 0 {
        Some("pack contains no topics"@)
    } else {
        match first_some(|i: int| def_problem(defs, i), defs.len() as int) {
            Some(m) => Some(m),
            None => first_some(|k: int| stage_problem(defs, level_at(k)), 6),
        }
    }
}

/// Teaching order: by level, then by stage inside the level.
pub open spec fn before(a: TopicV, b: TopicV) -> bool {
    level_rank(a.cefr) < level_rank(b.cefr) || (level_rank(a.cefr) == level_rank(b.cefr)
        && a.stage < b.stage)
}

/// `topics` holds exactly the topics of `defs`, in teaching order.
pub open spec fn in_teaching_order(topics: Seq<TopicV>, defs: Seq<TopicV>) -> bool {
    &&& topics.len() == defs.len()
    &&& forall|t: TopicV| topics.contains(t) <==> defs.contains(t)
    &&& forall|a: int, b: int| 0 <= a < b < topics.len() ==> before(#[trigger] topics[a], #[trigger] topics[b])
}

fn level_of_index(k: usize) -> (l: Level)
    requires
        k < 6,
    ensures
        l == level_at(k as int),
{
    if k == 0 {
        Level::A1
    } else if k == 1 {
        Level::A2
    } else if k == 2 {
        Level::B1
    } else if k == 3 {
        Level::B2
    } else if k == 4 {
        Level::C1
    } else {
        Level::C2
    }
}

fn topic_message(prefix: &str, id: &String, suffix: &str) -> (r: Vec<char>)
    ensures
        r@ == prefix@ + id@ + suffix@,
{
    quoted_id(prefix, &chars_of(id.as_str()), suffix)
}

/// The problem with topic `i`, as a message.
#[verifier::loop_isolation(false)]
fn def_problem_of(defs: &Vec<TopicDef>, i: usize) -> (r: Option<Vec<char>>)
    requires
        i < defs.len(),
    ensures
        match def_problem(defs@.map_values(|d: TopicDef| d@), i as int) {
            None => r is None,
            Some(m) => r matches Some(x) && x@ == m,
        },
{
    let ghost dv = defs@.map_values(|d: TopicDef| d@);
    let d = &defs[i];
    assert(dv[i as int] == d@);
    let id = chars_of(d.id.as_str());
    match id_problem_of(&id) {
        Some(m) => {
            return Some(m);
        },
        None => {},
    }
    let mut j: usize = 0;
    while j < i
        invariant
            j <= i,
            forall|x: int| 0 <= x < j ==> (#[trigger] dv[x]).id != d.id@,
        decreases i - j,
    {
        assert(dv[j as int] == defs@[j as int]@);
        if same_chars(&chars_of(defs[j].id.as_str()), &id) {
            assert(dv[j as int].id == d.id@);
            return Some(topic_message("duplicate topic id `", &d.id, "`"));
        }
        j += 1;
    }
    let mut j: usize = 0;
    while j < i
        invariant
            j <= i,
            forall|x: int| 0 <= x < j ==> !((#[trigger] dv[x]).cefr == d.cefr && dv[x].stage == d.stage),
        decreases i - j,
    {
        assert(dv[j as int] == defs@[j as int]@);
        if defs[j].cefr == d.cefr && defs[j].stage == d.stage {
            let mut m: Vec<char> = Vec::new();
            push_str(&mut m, "two topics share stage ");
            push_chars(&mut m, &decimal_chars(d.stage as u64));
            push_str(&mut m, " in ");
            push_str(&mut m, d.cefr.as_str());
            proof {
                assert(m@ =~= "two topics share stage "@ + decimal(d.stage as nat) + " in "@
                    + level_name(d.cefr));
            }
            return Some(m);
        }
        j += 1;
    }
    if d.stage == 0 {
        return Some(topic_message("topic `", &d.id, "` has stage 0, stages start at 1"));
    }
    if blank_chars(&chars_of(d.category.as_str())) {
        return Some(topic_message("topic `", &d.id, "` has an empty category"));
    }
    if blank_chars(&chars_of(d.title.as_str())) {
        return Some(topic_message("topic `", &d.id, "` has an empty title"));
    }
    if blank_chars(&chars_of(d.goal.as_str())) {
        return Some(topic_message("topic `", &d.id, "` has an empty goal"));
    }
    None
}

proof fn lemma_level_stages_step(defs: Seq<TopicV>, k: int, l: Level)
    requires
        0 <= k < defs.len(),
    ensures
        level_stages(defs.take(k + 1), l) == if defs[k].cefr == l {
            level_stages(defs.take(k), l).push(defs[k].stage as int)
        } else {
            level_stages(defs.take(k), l)
        },
{
    assert(defs.take(k + 1).drop_last() =~= defs.take(k));
}

proof fn lemma_min_above(st: Seq<int>, m: int)
    requires
        m >= 0,
    ensures
        min_above(st, m) >= 0 ==> st.contains(min_above(st, m)) && min_above(st, m) > m,
        min_above(st, m) < 0 ==> forall|j: int| 0 <= j < st.len() ==> st[j] <= m,
        min_above(st, m) >= 0 ==> forall|j: int| 0 <= j < st.len() && st[j] > m ==> min_above(st, m) <= st[j],
    decreases st.len(),
{
    if st.len() > 0 {
        let d = st.drop_last();
        lemma_min_above(d, m);
        let rest = min_above(d, m);
        assert forall|j: int| 0 <= j < st.len() - 1 implies st[j] == #[trigger] d[j] by {}
        if rest >= 0 {
            let w = choose|w: int| 0 <= w < d.len() && #[trigger] d[w] == rest;
            assert(st[w] == rest);
        }
        let r = min_above(st, m);
        if r < 0 {
            assert(r == rest);
            assert(st.last() <= m);
            assert forall|j: int| 0 <= j < st.len() implies st[j] <= m by {
                if j < st.len() - 1 {
                    assert(st[j] == d[j]);
                }
            }
        } else {
            assert(st.contains(r)) by {
                if r == st.last() {
                    assert(st[st.len() - 1] == r);
                }
            }
            assert forall|j: int| 0 <= j < st.len() && st[j] > m implies r <= st[j] by {
                if j < st.len() - 1 {
                    assert(st[j] == d[j]);
                }
            }
        }
    }
}

fn ints_contain(v: &Vec<u32>, x: u64) -> (r: bool)
    ensures
        r == v@.map_values(|s: u32| s as int).contains(x as int),
{
    let ghost w = v@.map_values(|s: u32| s as int);
    let mut k: usize = 0;
    while k < v.len()
        invariant
            k <= v.len(),
            w == v@.map_values(|s: u32| s as int),
            forall|m: int| 0 <= m < k ==> w[m] != x,
        decreases v.len() - k,
    {
        if v[k] as u64 == x {
            assert(w[k as int] == x);
            return true;
        }
        k += 1;
    }
    false
}

/// The problem with the stages of one level, as a message.
#[verifier::loop_isolation(false)]
fn stage_problem_of(defs: &Vec<TopicDef>, l: Level) -> (r: Option<Vec<char>>)
    ensures
        match stage_problem(defs@.map_values(|d: TopicDef| d@), l) {
            None => r is None,
            Some(m) => r matches Some(x) && x@ == m,
        },
{
    let ghost dv = defs@.map_values(|d: TopicDef| d@);
    let mut stages: Vec<u32> = Vec::new();
    let mut k: usize = 0;
    while k < defs.len()
        invariant
            k <= defs.len(),
            stages@.map_values(|s: u32| s as int) == level_stages(dv.take(k as int), l),
        decreases defs.len() - k,
    {
        proof {
            lemma_level_stages_step(dv, k as int, l);
            assert(dv[k as int] == defs@[k as int]@);
        }
        if defs[k].cefr == l {
            let ghost before = stages@.map_values(|s: u32| s as int);
            stages.push(defs[k].stage);
            proof {
                assert(stages@.map_values(|s: u32| s as int) =~= before.push(defs@[k as int].stage as int));
            }
        }
        k += 1;
    }
    assert(dv.take(defs.len() as int) =~= dv);
    let ghost st = level_stages(dv, l);
    let n = stages.len();
    let ghost ks = Seq::new(st.len(), |x: int| x + 1);
    let ghost p = |x: int| !st.contains(x);
    // The first stage of 1..=n that no topic of this level has.
    let mut m: usize = 0;
    let mut found = false;
    while m < n
        invariant
            m <= n,
            n == st.len(),
            ks == Seq::new(st.len(), |x: int| x + 1),
            p == (|x: int| !st.contains(x)),
            stages@.map_values(|s: u32| s as int) == st,
            !found,
            forall|x: int| 0 <= x < m ==> !p(#[trigger] ks[x]),
        decreases n - m,
    {
        if !ints_contain(&stages, m as u64 + 1) {
            found = true;
            break;
        }
        m += 1;
    }
    if !found {
        proof {
            lemma_first_where_none(ks, p);
        }
        return None;
    }
    proof {
        lemma_first_where_at(ks, p, m as int);
    }
    let missing: u64 = m as u64 + 1;
    // The smallest stage above it.
    let mut least: u64 = 0;
    let mut seen = false;
    let mut k: usize = 0;
    while k < n
        invariant
            k <= n,
            stages@.map_values(|s: u32| s as int) == st,
            seen ==> least == min_above(st.take(k as int), missing as int),
            !seen ==> min_above(st.take(k as int), missing as int) < 0 && least == 0,
        decreases n - k,
    {
        proof {
            assert(st.take(k + 1).drop_last() =~= st.take(k as int));
            assert(st[k as int] == stages@[k as int] as int);
        }
        let x = stages[k] as u64;
        if x > missing && (!seen || x < least) {
            least = x;
            seen = true;
        }
        k += 1;
    }
    assert(st.take(n as int) =~= st);
    let mut msg: Vec<char> = Vec::new();
    push_str(&mut msg, l.as_str());
    push_str(&mut msg, " stages must run 1..");
    push_chars(&mut msg, &decimal_chars(n as u64));
    push_str(&mut msg, ", found ");
    push_chars(&mut msg, &decimal_chars(least));
    push_str(&mut msg, " where ");
    push_chars(&mut msg, &decimal_chars(missing));
    push_str(&mut msg, " was expected");
    proof {
        lemma_min_above(st, missing as int);
        assert(least == found_stage(st, missing as int));
        assert(n == st.len());
        assert(msg@ =~= level_name(l) + " stages must run 1.."@ + decimal(st.len()) + ", found "@
            + decimal(found_stage(st, missing as int)) + " where "@ + decimal(missing as nat)
            + " was expected"@);
    }
    Some(msg)
}

impl Pack {
    /// Build a pack from the topic entries of its file, refusing any pack that
    /// breaks a rule.
    pub fn from_defs(language: &str, defs: Vec<TopicDef>) -> (r: Result<Pack, PackError>)
        ensures
            match pack_problem(defs@.map_values(|d: TopicDef| d@)) {
                Some(m) => r matches Err(e) && e@ == (language@, m),
                None => r matches Ok(p) && p@.language == language@ && in_teaching_order(
                    p@.topics,
                    defs@.map_values(|d: TopicDef| d@),
                ),
            },
    {
        let ghost dv = defs@.map_values(|d: TopicDef| d@);
        if defs.len() == 0 {
            let mut m: Vec<char> = Vec::new();
            push_str(&mut m, "pack contains no topics");
            assert(m@ =~= "pack contains no topics"@);
            return Err(PackError::invalid(language, &m));
        }
        let ghost f = |i: int| def_problem(dv, i);
        let mut i: usize = 0;
        while i < defs.len()
            invariant
                i <= defs.len(),
                dv == defs@.map_values(|d: TopicDef| d@),
                f == (|i: int| def_problem(dv, i)),
                first_some(f, i as int) is None,
            decreases defs.len() - i,
        {
            match def_problem_of(&defs, i) {
                Some(m) => {
                    proof {
                        lemma_first_some_found(f, i as int, defs.len() as int);
                    }
                    return Err(PackError::invalid(language, &m));
                },
                None => {},
            }
            i += 1;
        }
        let ghost g = |k: int| stage_problem(dv, level_at(k));
        let mut k: usize = 0;
        while k < 6
            invariant
                k <= 6,
                dv == defs@.map_values(|d: TopicDef| d@),
                g == (|k: int| stage_problem(dv, level_at(k))),
                first_some(g, k as int) is None,
                f == (|i: int| def_problem(dv, i)),
                first_some(f, defs.len() as int) is None,
            decreases 6 - k,
        {
            match stage_problem_of(&defs, level_of_index(k)) {
                Some(m) => {
                    proof {
                        lemma_first_some_found(g, k as int, 6);
                    }
                    return Err(PackError::invalid(language, &m));
                },
                None => {},
            }
            k += 1;
        }
        proof {
            assert forall|i: int, j: int|
                #![trigger defs@[i], defs@[j]]
                0 <= j < i < defs@.len() implies !(defs@[j].cefr == defs@[i].cefr
                    && defs@[j].stage == defs@[i].stage) by {
                crate::find::lemma_first_some_none_at(f, i, dv.len() as int);
                assert(def_problem(dv, i) is None);
                assert(dv[j] == defs@[j]@ && dv[i] == defs@[i]@);
                if id_problem(dv[i].id) is None && !(exists|x: int| 0 <= x < i && (#[trigger] dv[x]).id == dv[i].id) {
                    assert(!(dv[j].cefr == dv[i].cefr && dv[j].stage == dv[i].stage));
                }
            }
        }
        let topics = sorted_topics(&defs);
        Ok(Pack { language: language.to_owned(), topics })
    }
}

fn topic_before(ar: u8, astage: u32, br: u8, bstage: u32) -> (r: bool)
    ensures
        r == (ar < br || (ar == br && astage < bstage)),
{
    ar < br || (ar == br && astage < bstage)
}

/// The topics of `defs`, arranged in teaching order.
fn sorted_topics(defs: &Vec<TopicDef>) -> (r: Vec<Topic>)
    requires
        forall|i: int, j: int|
            #![trigger defs@[i], defs@[j]]
            0 <= j < i < defs@.len() ==> !(defs@[j].cefr == defs@[i].cefr && defs@[j].stage
                == defs@[i].stage),
    ensures
        in_teaching_order(r@.map_values(|t: Topic| t@), defs@.map_values(|d: TopicDef| d@)),
{
    let ghost dv = defs@.map_values(|d: TopicDef| d@);
    let mut out: Vec<Topic> = Vec::new();
    let mut k: usize = 0;
    while k < defs.len()
        invariant
            k <= defs.len(),
            dv == defs@.map_values(|d: TopicDef| d@),
            forall|i: int, j: int|
                #![trigger defs@[i], defs@[j]]
                0 <= j < i < defs@.len() ==> !(defs@[j].cefr == defs@[i].cefr && defs@[j].stage
                    == defs@[i].stage),
            out@.len() == k,
            forall|x: TopicV| out@.map_values(|t: Topic| t@).contains(x) <==> dv.take(k as int).contains(x),
            forall|a: int, b: int|
                0 <= a < b < out@.len() ==> before(#[trigger] out@[a]@, #[trigger] out@[b]@),
        decreases defs.len() - k,
    {
        let d = &defs[k];
        let t = Topic {
            id: d.id.clone(),
            cefr: d.cefr,
            stage: d.stage,
            category: d.category.clone(),
            title: d.title.clone(),
            goal: d.goal.clone(),
            status: d.status,
        };
        let ghost tv = t@;
        assert(tv == dv[k as int]);
        let ghost ov = out@.map_values(|x: Topic| x@);
        assert(forall|x: TopicV| ov.contains(x) <==> dv.take(k as int).contains(x));
        // Every topic placed so far has a different level and stage.
        assert forall|q: int| 0 <= q < out@.len() implies !(out@[q]@.cefr == tv.cefr
            && out@[q]@.stage == tv.stage) by {
            assert(ov[q] == out@[q]@);
            assert(ov.contains(out@[q]@));
            assert(dv.take(k as int).contains(out@[q]@));
            let j = choose|j: int| 0 <= j < k && #[trigger] dv.take(k as int)[j] == out@[q]@;
            assert(dv[j] == defs@[j]@);
            assert(defs@[k as int]@ == tv);
        }
        let rank = t.cefr.rank();
        let mut p: usize = 0;
        while p < out.len() && topic_before(out[p].cefr.rank(), out[p].stage, rank, t.stage)
            invariant
                p <= out@.len(),
                rank == level_rank(tv.cefr),
                t@ == tv,
                forall|q: int| 0 <= q < p ==> before(#[trigger] out@[q]@, tv),
            decreases out.len() - p,
        {
            p += 1;
        }
        assert(p < out@.len() ==> before(tv, out@[p as int]@));
        out.insert(p, t);
        proof {
            let nv = out@.map_values(|x: Topic| x@);
            let t0 = dv.take(k as int);
            let t1 = dv.take(k + 1);
            assert(nv =~= ov.insert(p as int, tv));
            assert(t1 =~= t0.push(tv));
            assert forall|x: TopicV| nv.contains(x) <==> t1.contains(x) by {
                if nv.contains(x) {
                    let w = choose|w: int| 0 <= w < nv.len() && #[trigger] nv[w] == x;
                    if w < p {
                        assert(ov[w] == x);
                        assert(ov.contains(x));
                        assert(t0.contains(x));
                        let j = choose|j: int| 0 <= j < k && #[trigger] t0[j] == x;
                        assert(t1[j] == x);
                    } else if w > p {
                        assert(ov[w - 1] == x);
                        assert(ov.contains(x));
                        assert(t0.contains(x));
                        let j = choose|j: int| 0 <= j < k && #[trigger] t0[j] == x;
                        assert(t1[j] == x);
                    } else {
                        assert(t1[k as int] == x);
                    }
                }
                if t1.contains(x) {
                    let j = choose|j: int| 0 <= j < k + 1 && #[trigger] t1[j] == x;
                    if j < k {
                        assert(t0[j] == x);
                        assert(t0.contains(x));
                        assert(ov.contains(x));
                        let w = choose|w: int| 0 <= w < ov.len() && #[trigger] ov[w] == x;
                        if w < p {
                            assert(nv[w] == x);
                        } else {
                            assert(nv[w + 1] == x);
                        }
                    } else {
                        assert(nv[p as int] == x);
                    }
                }
            }
            assert forall|a: int, b: int|
                0 <= a < b < out@.len() implies before(#[trigger] out@[a]@, #[trigger] out@[b]@) by {
                assert(out@[a]@ == nv[a]);
                assert(out@[b]@ == nv[b]);
                if b < p {
                    assert(nv[a] == ov[a] && nv[b] == ov[b]);
                } else if b == p {
                    assert(nv[a] == ov[a]);
                } else if a == p {
                    assert(nv[b] == ov[b - 1]);
                    assert(before(tv, ov[p as int]));
                    if b - 1 > p {
                        assert(before(ov[p as int], ov[b - 1]));
                    }
                } else if a < p {
                    assert(nv[a] == ov[a] && nv[b] == ov[b - 1]);
                    if a < b - 1 {
                        assert(before(ov[a], ov[b - 1]));
                    }
                } else {
                    assert(nv[a] == ov[a - 1] && nv[b] == ov[b - 1]);
                }
            }
        }
        k += 1;
    }
    proof {
        assert(dv.take(defs.len() as int) =~= dv);
        let nv = out@.map_values(|x: Topic| x@);
        assert forall|a: int, b: int| 0 <= a < b < nv.len() implies before(#[trigger] nv[a], #[trigger] nv[b]) by {
            assert(nv[a] == out@[a]@ && nv[b] == out@[b]@);
        }
    }
    out
}

/// The first topic with this id.
pub open spec fn topic_with(topics: Seq<TopicV>, id: Seq<char>) -> Option<int> {
    first_where(topics, |t: TopicV| t.id == id)
}

impl Pack {
    pub fn topic(&self, id: &str) -> (r: Option<&Topic>)
        ensures
            match topic_with(self@.topics, id@) {
                None => r is None,
                Some(i) => r matches Some(t) && t@ == self@.topics[i],
            },
    {
        let ghost tv = self@.topics;
        let ghost p = |t: TopicV| t.id == id@;
        let want = chars_of(id);
        let mut k: usize = 0;
        while k < self.topics.len()
            invariant
                k <= self.topics.len(),
                tv == self@.topics,
                want@ == id@,
                p == (|t: TopicV| t.id == id@),
                forall|m: int| 0 <= m < k ==> !p(#[trigger] tv[m]),
            decreases self.topics.len() - k,
        {
            assert(tv[k as int] == self.topics@[k as int]@);
            if same_chars(&chars_of(self.topics[k].id.as_str()), &want) {
                proof {
                    lemma_first_where_at(tv, p, k as int);
                }
                return Some(&self.topics[k]);
            }
            k += 1;
        }
        proof {
            lemma_first_where_none(tv, p);
        }
        None
    }
}

// ---------------------------------------------------------------- laws

/// Topic `i` keeps the topic rules.
pub open spec fn topic_keeps_rules(defs: Seq<TopicV>, i: int) -> bool {
    let d = defs[i];
    &&& id_problem(d.id) is None
    &&& d.stage >= 1
    &&& !all_space(d.category)
    &&& !all_space(d.title)
    &&& !all_space(d.goal)
}

/// A pack that loads keeps every rule: it has topics; every topic id is well
/// formed and unique; every stage is positive and unique inside its level; and
/// the stages of each level run 1, 2, ... up to its number of topics, with no
/// gap.
pub proof fn law_valid_pack_keeps_the_rules(defs: Seq<TopicV>)
    requires
        pack_problem(defs) is None,
    ensures
        defs.len() > 0,
        forall|i: int| 0 <= i < defs.len() ==> #[trigger] topic_keeps_rules(defs, i),
        forall|i: int, j: int|
            0 <= i < defs.len() && 0 <= j < defs.len() && i != j ==> (#[trigger] defs[i]).id
                != (#[trigger] defs[j]).id && !(defs[i].cefr == defs[j].cefr && defs[i].stage
                == defs[j].stage),
        forall|l: Level, k: int|
            1 <= k <= level_stages(defs, l).len() ==> #[trigger] level_stages(defs, l).contains(k),
{
    let f = |i: int| def_problem(defs, i);
    assert forall|i: int| 0 <= i < defs.len() implies #[trigger] def_problem(defs, i) is None by {
        crate::find::lemma_first_some_none_at(f, i, defs.len() as int);
    }
    assert forall|i: int| 0 <= i < defs.len() implies #[trigger] topic_keeps_rules(defs, i) by {
        assert(def_problem(defs, i) is None);
    }
    assert forall|i: int, j: int|
        0 <= i < defs.len() && 0 <= j < defs.len() && i != j implies (#[trigger] defs[i]).id
            != (#[trigger] defs[j]).id && !(defs[i].cefr == defs[j].cefr && defs[i].stage
            == defs[j].stage) by {
        let (lo, hi) = if i < j {
            (i, j)
        } else {
            (j, i)
        };
        assert(def_problem(defs, hi) is None);
        assert(id_problem(defs[hi].id) is None);
        assert(!(exists|x: int| 0 <= x < hi && (#[trigger] defs[x]).id == defs[hi].id));
        assert(defs[lo].id != defs[hi].id);
    }
    let g = |k: int| stage_problem(defs, level_at(k));
    assert forall|l: Level, k: int|
        1 <= k <= level_stages(defs, l).len() implies #[trigger] level_stages(defs, l).contains(k) by {
        let li: int = match l {
            Level::A1 => 0,
            Level::A2 => 1,
            Level::B1 => 2,
            Level::B2 => 3,
            Level::C1 => 4,
            Level::C2 => 5,
        };
        assert(level_at(li) == l);
        crate::find::lemma_first_some_none_at(g, li, 6);
        let st = level_stages(defs, l);
        let ks = Seq::new(st.len(), |x: int| x + 1);
        let p = |x: int| !st.contains(x);
        lemma_first_where(ks, p);
        assert(ks[k - 1] == k);
    }
}

} // verus!
