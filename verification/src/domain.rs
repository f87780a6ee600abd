//! Closed sets the rest of the program is built on.
//!
//! Everything here is deliberately an enum. A grammar pack that names a level or
//! an error kind lacuna does not know about must fail to load, not produce a
//! broken sheet three weeks later.

use vstd::prelude::*;

use crate::text::{
    chars_of, lower_ascii_str, push_chars, push_str, spells, string_of, to_lower_ascii,
    to_upper_ascii, upper_ascii_str,
};

verus! {

/// CEFR level, as labelled by the source curriculum.
#[derive(Debug, Clone, Copy, PartialEq, Eq, Structural, Hash, PartialOrd, Ord)]
pub enum Level {
    A1,
    A2,
    B1,
    B2,
    C1,
    C2,
}

/// Position of a level in the curriculum, A1 first.
pub open spec fn level_rank(l: Level) -> int {
    match l {
        Level::A1 => 0,
        Level::A2 => 1,
        Level::B1 => 2,
        Level::B2 => 3,
        Level::C1 => 4,
        Level::C2 => 5,
    }
}

/// The label of a level.
pub open spec fn level_name(l: Level) -> Seq<char> {
    match l {
        Level::A1 => seq!['A', '1'],
        Level::A2 => seq!['A', '2'],
        Level::B1 => seq!['B', '1'],
        Level::B2 => seq!['B', '2'],
        Level::C1 => seq!['C', '1'],
        Level::C2 => seq!['C', '2'],
    }
}

/// The level with exactly this label, if there is one.
pub open spec fn level_named(s: Seq<char>) -> Option<Level> {
    if s == level_name(Level::A1) {
        Some(Level::A1)
    } else if s == level_name(Level::A2) {
        Some(Level::A2)
    } else if s == level_name(Level::B1) {
        Some(Level::B1)
    } else if s == level_name(Level::B2) {
        Some(Level::B2)
    } else if s == level_name(Level::C1) {
        Some(Level::C1)
    } else if s == level_name(Level::C2) {
        Some(Level::C2)
    } else {
        None
    }
}

/// What parsing a level label gives: the label is read without regard to
/// ASCII case, and an unknown one is refused with a message that quotes it.
pub open spec fn level_parse(s: Seq<char>) -> Result<Level, Seq<char>> {
    let up = upper_ascii_str(s);
    match level_named(up) {
        Some(l) => Ok(l),
        None => Err("unknown CEFR level `"@ + up + "`"@),
    }
}

impl Level {
    /// Every level, in curriculum order.
    pub const ALL: [Level; 6] = [Level::A1, Level::A2, Level::B1, Level::B2, Level::C1, Level::C2];

    /// Position in the curriculum, A1 first.
    pub fn rank(self) -> (r: u8)
        ensures
            r == level_rank(self),
    {
        match self {
            Level::A1 => 0,
            Level::A2 => 1,
            Level::B1 => 2,
            Level::B2 => 3,
            Level::C1 => 4,
            Level::C2 => 5,
        }
    }

    pub fn as_str(self) -> (r: &'static str)
        ensures
            r@ == level_name(self),
    {
        match self {
            Level::A1 => {
                proof {
                    reveal_strlit("A1");
                }
                "A1"
            },
            Level::A2 => {
                proof {
                    reveal_strlit("A2");
                }
                "A2"
            },
            Level::B1 => {
                proof {
                    reveal_strlit("B1");
                }
                "B1"
            },
            Level::B2 => {
                proof {
                    reveal_strlit("B2");
                }
                "B2"
            },
            Level::C1 => {
                proof {
                    reveal_strlit("C1");
                }
                "C1"
            },
            Level::C2 => {
                proof {
                    reveal_strlit("C2");
                }
                "C2"
            },
        }
    }

    /// Read a level label, ignoring ASCII case.
    pub fn parse(s: &str) -> (r: Result<Level, String>)
        ensures
            match level_parse(s@) {
                Ok(l) => r == Ok::<Level, String>(l),
                Err(m) => r matches Err(e) && e@ == m,
            },
    {
        let up = to_upper_ascii(&chars_of(s));
        proof {
            reveal_strlit("A1");
            reveal_strlit("A2");
            reveal_strlit("B1");
            reveal_strlit("B2");
            reveal_strlit("C1");
            reveal_strlit("C2");
            assert(level_name(Level::A1) =~= "A1"@);
            assert(level_name(Level::A2) =~= "A2"@);
            assert(level_name(Level::B1) =~= "B1"@);
            assert(level_name(Level::B2) =~= "B2"@);
            assert(level_name(Level::C1) =~= "C1"@);
            assert(level_name(Level::C2) =~= "C2"@);
        }
        if spells(&up, "A1") {
            Ok(Level::A1)
        } else if spells(&up, "A2") {
            Ok(Level::A2)
        } else if spells(&up, "B1") {
            Ok(Level::B1)
        } else if spells(&up, "B2") {
            Ok(Level::B2)
        } else if spells(&up, "C1") {
            Ok(Level::C1)
        } else if spells(&up, "C2") {
            Ok(Level::C2)
        } else {
            let mut m: Vec<char> = Vec::new();
            push_str(&mut m, "unknown CEFR level `");
            push_chars(&mut m, &up);
            push_str(&mut m, "`");
            proof {
                assert(m@ =~= "unknown CEFR level `"@ + up@ + "`"@);
            }
            Err(string_of(&m))
        }
    }
}

impl core::str::FromStr for Level {
    type Err = String;

    fn from_str(s: &str) -> (r: Result<Self, Self::Err>)
        ensures
            match level_parse(s@) {
                Ok(l) => r == Ok::<Level, String>(l),
                Err(m) => r matches Err(e) && e@ == m,
            },
    {
        Level::parse(s)
    }
}

/// How well a whole sheet went. Maps one to one onto the FSRS buttons.
#[derive(Debug, Clone, Copy, PartialEq, Eq, Structural)]
pub enum Rating {
    Again,
    Hard,
    Good,
    Easy,
}

/// The FSRS button number of a rating, 1 to 4. A better rating has a larger one.
pub open spec fn fsrs_button(r: Rating) -> int {
    match r {
        Rating::Again => 1,
        Rating::Hard => 2,
        Rating::Good => 3,
        Rating::Easy => 4,
    }
}

pub open spec fn rating_name(r: Rating) -> Seq<char> {
    match r {
        Rating::Again => seq!['a', 'g', 'a', 'i', 'n'],
        Rating::Hard => seq!['h', 'a', 'r', 'd'],
        Rating::Good => seq!['g', 'o', 'o', 'd'],
        Rating::Easy => seq!['e', 'a', 's', 'y'],
    }
}

pub open spec fn rating_named(s: Seq<char>) -> Option<Rating> {
    if s == rating_name(Rating::Again) {
        Some(Rating::Again)
    } else if s == rating_name(Rating::Hard) {
        Some(Rating::Hard)
    } else if s == rating_name(Rating::Good) {
        Some(Rating::Good)
    } else if s == rating_name(Rating::Easy) {
        Some(Rating::Easy)
    } else {
        None
    }
}

/// What parsing a rating name gives: the name is read without regard to ASCII
/// case, and an unknown one is refused with a message that quotes it.
pub open spec fn rating_parse(s: Seq<char>) -> Result<Rating, Seq<char>> {
    let low = lower_ascii_str(s);
    match rating_named(low) {
        Some(r) => Ok(r),
        None => Err("unknown rating `"@ + low + "`"@),
    }
}

impl Rating {
    /// The value FSRS expects: 1 to 4.
    pub fn as_fsrs(self) -> (r: u32)
        ensures
            r == fsrs_button(self),
    {
        match self {
            Rating::Again => 1,
            Rating::Hard => 2,
            Rating::Good => 3,
            Rating::Easy => 4,
        }
    }

    pub fn as_str(self) -> (r: &'static str)
        ensures
            r@ == rating_name(self),
    {
        match self {
            Rating::Again => {
                proof {
                    reveal_strlit("again");
                }
                "again"
            },
            Rating::Hard => {
                proof {
                    reveal_strlit("hard");
                }
                "hard"
            },
            Rating::Good => {
                proof {
                    reveal_strlit("good");
                }
                "good"
            },
            Rating::Easy => {
                proof {
                    reveal_strlit("easy");
                }
                "easy"
            },
        }
    }

    /// Read a rating name, ignoring ASCII case.
    pub fn parse(s: &str) -> (r: Result<Rating, String>)
        ensures
            match rating_parse(s@) {
                Ok(x) => r == Ok::<Rating, String>(x),
                Err(m) => r matches Err(e) && e@ == m,
            },
    {
        let low = to_lower_ascii(&chars_of(s));
        proof {
            reveal_strlit("again");
            reveal_strlit("hard");
            reveal_strlit("good");
            reveal_strlit("easy");
            assert(rating_name(Rating::Again) =~= "again"@);
            assert(rating_name(Rating::Hard) =~= "hard"@);
            assert(rating_name(Rating::Good) =~= "good"@);
            assert(rating_name(Rating::Easy) =~= "easy"@);
        }
        if spells(&low, "again") {
            Ok(Rating::Again)
        } else if spells(&low, "hard") {
            Ok(Rating::Hard)
        } else if spells(&low, "good") {
            Ok(Rating::Good)
        } else if spells(&low, "easy") {
            Ok(Rating::Easy)
        } else {
            let mut m: Vec<char> = Vec::new();
            push_str(&mut m, "unknown rating `");
            push_chars(&mut m, &low);
            push_str(&mut m, "`");
            proof {
                assert(m@ =~= "unknown rating `"@ + low@ + "`"@);
            }
            Err(string_of(&m))
        }
    }
}

impl core::str::FromStr for Rating {
    type Err = String;

    fn from_str(s: &str) -> (r: Result<Self, Self::Err>)
        ensures
            match rating_parse(s@) {
                Ok(x) => r == Ok::<Rating, String>(x),
                Err(m) => r matches Err(e) && e@ == m,
            },
    {
        Rating::parse(s)
    }
}

/// The kind of mistake a blank can capture.
///
/// These are produced at generation time, while the generator still knows what
/// the blank was testing. They are never guessed from a wrong answer.
#[derive(Debug, Clone, Copy, PartialEq, Eq, Structural, Hash)]
pub enum ErrorKind {
    /// Grammatical case: nominative, accusative, dative, genitive.
    Case,
    /// Grammatical gender of the noun involved.
    Gender,
    /// Singular or plural.
    Number,
    /// What forced the case or form, for example a preposition or a verb.
    Trigger,
    /// Verb form: tense, person, participle.
    Form,
    /// Adjective or article declension pattern.
    Declension,
    /// Position of a word in the sentence.
    WordOrder,
    /// Spelling only, the grammar was right.
    Spelling,
    /// Capitalisation only, the letters were right.
    Capitalisation,
}

pub open spec fn kind_name(k: ErrorKind) -> Seq<char> {
    match k {
        ErrorKind::Case => seq!['c', 'a', 's', 'e'],
        ErrorKind::Gender => seq!['g', 'e', 'n', 'd', 'e', 'r'],
        ErrorKind::Number => seq!['n', 'u', 'm', 'b', 'e', 'r'],
        ErrorKind::Trigger => seq!['t', 'r', 'i', 'g', 'g', 'e', 'r'],
        ErrorKind::Form => seq!['f', 'o', 'r', 'm'],
        ErrorKind::Declension => seq!['d', 'e', 'c', 'l', 'e', 'n', 's', 'i', 'o', 'n'],
        ErrorKind::WordOrder => seq!['w', 'o', 'r', 'd', '_', 'o', 'r', 'd', 'e', 'r'],
        ErrorKind::Spelling => seq!['s', 'p', 'e', 'l', 'l', 'i', 'n', 'g'],
        ErrorKind::Capitalisation => seq![
            'c', 'a', 'p', 'i', 't', 'a', 'l', 'i', 's', 'a', 't', 'i', 'o', 'n'
        ],
    }
}

pub open spec fn kind_named(s: Seq<char>) -> Option<ErrorKind> {
    if s == kind_name(ErrorKind::Case) {
        Some(ErrorKind::Case)
    } else if s == kind_name(ErrorKind::Gender) {
        Some(ErrorKind::Gender)
    } else if s == kind_name(ErrorKind::Number) {
        Some(ErrorKind::Number)
    } else if s == kind_name(ErrorKind::Trigger) {
        Some(ErrorKind::Trigger)
    } else if s == kind_name(ErrorKind::Form) {
        Some(ErrorKind::Form)
    } else if s == kind_name(ErrorKind::Declension) {
        Some(ErrorKind::Declension)
    } else if s == kind_name(ErrorKind::WordOrder) {
        Some(ErrorKind::WordOrder)
    } else if s == kind_name(ErrorKind::Spelling) {
        Some(ErrorKind::Spelling)
    } else if s == kind_name(ErrorKind::Capitalisation) {
        Some(ErrorKind::Capitalisation)
    } else {
        None
    }
}

/// What parsing an error kind gives: the exact name, case included.
pub open spec fn kind_parse(s: Seq<char>) -> Result<ErrorKind, Seq<char>> {
    match kind_named(s) {
        Some(k) => Ok(k),
        None => Err("unknown error kind `"@ + s + "`"@),
    }
}

impl ErrorKind {
    pub fn as_str(self) -> (r: &'static str)
        ensures
            r@ == kind_name(self),
    {
        match self {
            ErrorKind::Case => {
                proof {
                    reveal_strlit("case");
                }
                "case"
            },
            ErrorKind::Gender => {
                proof {
                    reveal_strlit("gender");
                }
                "gender"
            },
            ErrorKind::Number => {
                proof {
                    reveal_strlit("number");
                }
                "number"
            },
            ErrorKind::Trigger => {
                proof {
                    reveal_strlit("trigger");
                }
                "trigger"
            },
            ErrorKind::Form => {
                proof {
                    reveal_strlit("form");
                }
                "form"
            },
            ErrorKind::Declension => {
                proof {
                    reveal_strlit("declension");
                }
                "declension"
            },
            ErrorKind::WordOrder => {
                proof {
                    reveal_strlit("word_order");
                }
                "word_order"
            },
            ErrorKind::Spelling => {
                proof {
                    reveal_strlit("spelling");
                }
                "spelling"
            },
            ErrorKind::Capitalisation => {
                proof {
                    reveal_strlit("capitalisation");
                }
                "capitalisation"
            },
        }
    }

    /// Read an error kind by its exact name.
    pub fn parse(s: &str) -> (r: Result<ErrorKind, String>)
        ensures
            match kind_parse(s@) {
                Ok(k) => r == Ok::<ErrorKind, String>(k),
                Err(m) => r matches Err(e) && e@ == m,
            },
    {
        let v = chars_of(s);
        ErrorKind::parse_chars(&v)
    }

    #[verifier::rlimit(40)]
    fn parse_chars(v: &Vec<char>) -> (r: Result<ErrorKind, String>)
        ensures
            match kind_parse(v@) {
                Ok(k) => r == Ok::<ErrorKind, String>(k),
                Err(m) => r matches Err(e) && e@ == m,
            },
    {
        proof {
            reveal_strlit("case");
            reveal_strlit("gender");
            reveal_strlit("number");
            reveal_strlit("trigger");
            reveal_strlit("form");
            reveal_strlit("declension");
            reveal_strlit("word_order");
            reveal_strlit("spelling");
            reveal_strlit("capitalisation");
            assert(kind_name(ErrorKind::Case) =~= "case"@);
            assert(kind_name(ErrorKind::Gender) =~= "gender"@);
            assert(kind_name(ErrorKind::Number) =~= "number"@);
            assert(kind_name(ErrorKind::Trigger) =~= "trigger"@);
            assert(kind_name(ErrorKind::Form) =~= "form"@);
            assert(kind_name(ErrorKind::Declension) =~= "declension"@);
            assert(kind_name(ErrorKind::WordOrder) =~= "word_order"@);
            assert(kind_name(ErrorKind::Spelling) =~= "spelling"@);
            assert(kind_name(ErrorKind::Capitalisation) =~= "capitalisation"@);
        }
        if spells(v, "case") {
            Ok(ErrorKind::Case)
        } else if spells(v, "gender") {
            Ok(ErrorKind::Gender)
        } else if spells(v, "number") {
            Ok(ErrorKind::Number)
        } else if spells(v, "trigger") {
            Ok(ErrorKind::Trigger)
        } else if spells(v, "form") {
            Ok(ErrorKind::Form)
        } else if spells(v, "declension") {
            Ok(ErrorKind::Declension)
        } else if spells(v, "word_order") {
            Ok(ErrorKind::WordOrder)
        } else if spells(v, "spelling") {
            Ok(ErrorKind::Spelling)
        } else if spells(v, "capitalisation") {
            Ok(ErrorKind::Capitalisation)
        } else {
            let mut m: Vec<char> = Vec::new();
            push_str(&mut m, "unknown error kind `");
            push_chars(&mut m, v);
            push_str(&mut m, "`");
            proof {
                assert(m@ =~= "unknown error kind `"@ + v@ + "`"@);
            }
            Err(string_of(&m))
        }
    }
}

impl core::str::FromStr for ErrorKind {
    type Err = String;

    fn from_str(s: &str) -> (r: Result<Self, Self::Err>)
        ensures
            match kind_parse(s@) {
                Ok(k) => r == Ok::<ErrorKind, String>(k),
                Err(m) => r matches Err(e) && e@ == m,
            },
    {
        ErrorKind::parse(s)
    }
}

/// A tag written as `kind:detail`, for example `case:dative` or
/// `trigger:preposition_mit`.
#[derive(Debug, PartialEq, Eq, Hash)]
pub struct ErrorTag {
    pub kind: ErrorKind,
    pub detail: String,
}

impl View for ErrorTag {
    type V = (ErrorKind, Seq<char>);

    open spec fn view(&self) -> (ErrorKind, Seq<char>) {
        (self.kind, self.detail@)
    }
}

impl Clone for ErrorTag {
    fn clone(&self) -> (r: Self)
        ensures
            r == *self,
    {
        ErrorTag { kind: self.kind, detail: self.detail.clone() }
    }
}

/// A tag detail may hold lowercase ASCII letters, digits and underscores.
pub open spec fn is_detail_char(c: char) -> bool {
    ('a' <= c && c <= 'z') || ('0' <= c && c <= '9') || c == '_'
}

/// Index of the first `c` in `s`, or -1 when there is none.
pub open spec fn first_of(s: Seq<char>, c: char) -> int
    decreases s.len(),
{
    if s.len() == 0 {
        -1
    } else {
        let k = first_of(s.drop_last(), c);
        if k >= 0 {
            k
        } else if s.last() == c {
            s.len() - 1
        } else {
            -1
        }
    }
}

/// `first_of` names the first occurrence, or none at all.
pub proof fn lemma_first_of(s: Seq<char>, c: char)
    ensures
        -1 <= first_of(s, c) < s.len(),
        first_of(s, c) >= 0 ==> s[first_of(s, c)] == c,
        forall|j: int| 0 <= j < s.len() && (first_of(s, c) < 0 || j < first_of(s, c)) ==> s[j]
            != c,
    decreases s.len(),
{
    if s.len() > 0 {
        lemma_first_of(s.drop_last(), c);
        assert forall|j: int| 0 <= j < s.len() - 1 implies s.drop_last()[j] == s[j] by {}
    }
}

/// The first occurrence is determined by where `c` is and is not.
pub proof fn lemma_first_of_at(s: Seq<char>, c: char, m: int)
    requires
        0 <= m < s.len(),
        s[m] == c,
        forall|j: int| 0 <= j < m ==> s[j] != c,
    ensures
        first_of(s, c) == m,
{
    lemma_first_of(s, c);
}

/// What parsing a `kind:detail` tag gives, first error first.
pub open spec fn tag_parse(s: Seq<char>) -> Result<(ErrorKind, Seq<char>), Seq<char>> {
    let i = first_of(s, ':');
    if i < 0 {
        Err("tag `"@ + s + "` is not in `kind:detail` form"@)
    } else {
        let head = s.take(i);
        let detail = s.skip(i + 1);
        match kind_parse(head) {
            Err(m) => Err(m),
            Ok(kind) => if detail.len() == 0 {
                Err("tag `"@ + s + "` has an empty detail"@)
            } else if !(forall|j: int| 0 <= j < detail.len() ==> is_detail_char(#[trigger] detail[j])) {
                Err("tag detail `"@ + detail + "` must be lowercase ascii, digits or underscore"@)
            } else {
                Ok((kind, detail))
            },
        }
    }
}

/// A tag written out as `kind:detail`.
pub open spec fn tag_text(t: (ErrorKind, Seq<char>)) -> Seq<char> {
    kind_name(t.0) + seq![':'] + t.1
}

fn first_colon(v: &Vec<char>) -> (r: Option<usize>)
    ensures
        match r {
            Some(i) => first_of(v@, ':') == i,
            None => first_of(v@, ':') < 0,
        },
{
    let mut i: usize = 0;
    while i < v.len()
        invariant
            i <= v.len(),
            forall|j: int| 0 <= j < i ==> v@[j] != ':',
        decreases v.len() - i,
    {
        if v[i] == ':' {
            proof {
                lemma_first_of_at(v@, ':', i as int);
            }
            return Some(i);
        }
        i += 1;
    }
    proof {
        lemma_first_of(v@, ':');
    }
    None
}

fn slice_chars(v: &Vec<char>, from: usize, to: usize) -> (r: Vec<char>)
    requires
        from <= to <= v.len(),
    ensures
        r@ == v@.subrange(from as int, to as int),
{
    let mut r: Vec<char> = Vec::new();
    let mut i: usize = from;
    while i < to
        invariant
            from <= i <= to,
            to <= v.len(),
            r@ == v@.subrange(from as int, i as int),
        decreases to - i,
    {
        r.push(v[i]);
        i += 1;
        assert(r@ =~= v@.subrange(from as int, i as int));
    }
    r
}

impl ErrorTag {
    pub fn new(kind: ErrorKind, detail: &str) -> (r: Self)
        ensures
            r.kind == kind,
            r.detail@ == detail@,
    {
        ErrorTag { kind, detail: detail.to_owned() }
    }

    /// The tag written as `kind:detail`.
    pub fn to_string(&self) -> (r: String)
        ensures
            r@ == tag_text(self@),
    {
        let mut m: Vec<char> = Vec::new();
        push_str(&mut m, self.kind.as_str());
        m.push(':');
        push_str(&mut m, self.detail.as_str());
        proof {
            assert(m@ =~= tag_text(self@));
        }
        string_of(&m)
    }

    /// Read a `kind:detail` tag.
    #[verifier::loop_isolation(false)]
    pub fn parse(s: &str) -> (r: Result<ErrorTag, String>)
        ensures
            match tag_parse(s@) {
                Ok(t) => r matches Ok(tag) && tag@ == t,
                Err(m) => r matches Err(e) && e@ == m,
            },
    {
        let v = chars_of(s);
        let colon = first_colon(&v);
        proof {
            lemma_first_of(v@, ':');
        }
        match colon {
            None => {
                let mut m: Vec<char> = Vec::new();
                push_str(&mut m, "tag `");
                push_chars(&mut m, &v);
                push_str(&mut m, "` is not in `kind:detail` form");
                proof {
                    assert(m@ =~= "tag `"@ + v@ + "` is not in `kind:detail` form"@);
                }
                Err(string_of(&m))
            },
            Some(i) => {
                let head = slice_chars(&v, 0, i);
                let detail = slice_chars(&v, i + 1, v.len());
                proof {
                    assert(head@ =~= v@.take(i as int));
                    assert(detail@ =~= v@.skip(i + 1));
                }
                let kind = match ErrorKind::parse_chars(&head) {
                    Ok(k) => k,
                    Err(e) => {
                        return Err(e);
                    },
                };
                if detail.len() == 0 {
                    let mut m: Vec<char> = Vec::new();
                    push_str(&mut m, "tag `");
                    push_chars(&mut m, &v);
                    push_str(&mut m, "` has an empty detail");
                    proof {
                        assert(m@ =~= "tag `"@ + v@ + "` has an empty detail"@);
                    }
                    return Err(string_of(&m));
                }
                let mut j: usize = 0;
                while j < detail.len()
                    invariant
                        j <= detail.len(),
                        forall|k: int| 0 <= k < j ==> is_detail_char(#[trigger] detail@[k]),
                    decreases detail.len() - j,
                {
                    let c = detail[j];
                    if !(('a' <= c && c <= 'z') || ('0' <= c && c <= '9') || c == '_') {
                        assert(!is_detail_char(detail@[j as int]));
                        assert(!(forall|k: int|
                            0 <= k < detail@.len() ==> is_detail_char(#[trigger] detail@[k])));
                        let mut m: Vec<char> = Vec::new();
                        push_str(&mut m, "tag detail `");
                        push_chars(&mut m, &detail);
                        push_str(&mut m, "` must be lowercase ascii, digits or underscore");
                        proof {
                            assert(m@ =~= "tag detail `"@ + detail@
                                + "` must be lowercase ascii, digits or underscore"@);
                        }
                        return Err(string_of(&m));
                    }
                    j += 1;
                }
                Ok(ErrorTag { kind, detail: string_of(&detail) })
            },
        }
    }
}

impl core::str::FromStr for ErrorTag {
    type Err = String;

    fn from_str(s: &str) -> (r: Result<Self, Self::Err>)
        ensures
            match tag_parse(s@) {
                Ok(t) => r matches Ok(tag) && tag@ == t,
                Err(m) => r matches Err(e) && e@ == m,
            },
    {
        ErrorTag::parse(s)
    }
}

// ---------------------------------------------------------------- laws

/// Every level reads back from its own label.
pub proof fn law_level_round_trip(l: Level)
    ensures
        level_parse(level_name(l)) == Ok::<Level, Seq<char>>(l),
{
    let s = level_name(l);
    assert(upper_ascii_str(s) =~= s);
}

/// Every rating reads back from its own name.
pub proof fn law_rating_round_trip(r: Rating)
    ensures
        rating_parse(rating_name(r)) == Ok::<Rating, Seq<char>>(r),
{
    let s = rating_name(r);
    assert(lower_ascii_str(s) =~= s);
}

/// Every error kind reads back from its own name.
pub proof fn law_kind_round_trip(k: ErrorKind)
    ensures
        kind_parse(kind_name(k)) == Ok::<ErrorKind, Seq<char>>(k),
{
}

/// A tag whose detail is well formed reads back from its written form.
pub proof fn law_tag_round_trip(t: (ErrorKind, Seq<char>))
    requires
        t.1.len() > 0,
        forall|j: int| 0 <= j < t.1.len() ==> is_detail_char(#[trigger] t.1[j]),
    ensures
        tag_parse(tag_text(t)) == Ok::<(ErrorKind, Seq<char>), Seq<char>>(t),
{
    let s = tag_text(t);
    let n = kind_name(t.0);
    assert forall|j: int| 0 <= j < n.len() implies s[j] != ':' by {
        assert(s[j] == n[j]);
    }
    lemma_first_of_at(s, ':', n.len() as int);
    assert(s.take(n.len() as int) =~= n);
    assert(s.skip(n.len() as int + 1) =~= t.1);
}

} // verus!
