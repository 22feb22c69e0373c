use vstd::prelude::*;
use crate::text::{int_text, push_int};
use crate::error::{eof, missing_tag_for_entity, unexpected_tag, WeldError};

verus! {

broadcast use vstd::string::group_string_axioms;

/// The characters that `char::is_whitespace` accepts: Unicode's `White_Space`.
pub open spec fn is_space(c: char) -> bool {
    ('\u{9}' <= c && c <= '\u{d}') || c == ' ' || c == '\u{85}' || c == '\u{a0}' || c == '\u{1680}'
        || ('\u{2000}' <= c && c <= '\u{200a}') || c == '\u{2028}' || c == '\u{2029}' || c == '\u{202f}'
        || c == '\u{205f}' || c == '\u{3000}'
}

pub open spec fn trim_start(s: Seq<char>) -> Seq<char>
    decreases s.len(),
{
    if s.len() > 0 && is_space(s[0]) {
        trim_start(s.drop_first())
    } else {
        s
    }
}

pub open spec fn trim_end(s: Seq<char>) -> Seq<char>
    decreases s.len(),
{
    if s.len() > 0 && is_space(s.last()) {
        trim_end(s.drop_last())
    } else {
        s
    }
}

/// `s` without leading and trailing white space.
pub open spec fn trim(s: Seq<char>) -> Seq<char> {
    trim_end(trim_start(s))
}

/// The pieces of `s` between newline characters; the text without any newline is one piece.
pub open spec fn split_nl(s: Seq<char>) -> Seq<Seq<char>>
    decreases s.len(),
{
    if s.len() == 0 {
        seq![Seq::empty()]
    } else {
        let r = split_nl(s.drop_last());
        if s.last() == '\n' {
            r.push(Seq::empty())
        } else {
            r.update(r.len() - 1, r.last().push(s.last()))
        }
    }
}

/// The trimmed lines that are not blank.
pub open spec fn kept_lines(ls: Seq<Seq<char>>) -> Seq<Seq<char>>
    decreases ls.len(),
{
    if ls.len() == 0 {
        Seq::empty()
    } else {
        let r = kept_lines(ls.drop_last());
        let t = trim(ls.last());
        if t.len() > 0 {
            r.push(t)
        } else {
            r
        }
    }
}

/// The non-blank lines of a document, trimmed.
pub open spec fn tokens(s: Seq<char>) -> Seq<Seq<char>> {
    kept_lines(split_nl(s))
}

pub proof fn lemma_split_nonempty(s: Seq<char>)
    ensures
        split_nl(s).len() > 0,
    decreases s.len(),
{
    if s.len() > 0 {
        lemma_split_nonempty(s.drop_last());
    }
}

fn is_space_char(c: char) -> (r: bool)
    ensures
        r == is_space(c),
{
    ('\u{9}' <= c && c <= '\u{d}') || c == ' ' || c == '\u{85}' || c == '\u{a0}' || c == '\u{1680}'
        || ('\u{2000}' <= c && c <= '\u{200a}') || c == '\u{2028}' || c == '\u{2029}' || c == '\u{202f}'
        || c == '\u{205f}' || c == '\u{3000}'
}

/// `v` without leading and trailing white space.
pub fn trim_chars(v: &Vec<char>) -> (r: Vec<char>)
    ensures
        r@ == trim(v@),
{
    let n = v.len();
    let mut i: usize = 0;
    assert(v@.skip(0) =~= v@);
    while i < n && is_space_char(v[i])
        invariant
            n == v.len(),
            i <= n,
            trim_start(v@) == trim_start(v@.skip(i as int)),
        decreases n - i,
    {
        proof {
            assert(v@.skip(i as int).drop_first() =~= v@.skip(i + 1));
        }
        i = i + 1;
    }
    let ghost t = v@.skip(i as int);
    assert(trim_start(v@) == t);
    let mut j: usize = n;
    assert(v@.subrange(i as int, n as int) =~= t);
    while j > i && is_space_char(v[j - 1])
        invariant
            n == v.len(),
            i <= j <= n,
            t == v@.skip(i as int),
            trim_end(t) == trim_end(v@.subrange(i as int, j as int)),
        decreases j,
    {
        proof {
            assert(v@.subrange(i as int, j as int).drop_last() =~= v@.subrange(i as int, j - 1));
        }
        j = j - 1;
    }
    let mut r: Vec<char> = Vec::new();
    let mut k: usize = i;
    while k < j
        invariant
            i <= k <= j <= n,
            n == v.len(),
            r@ == v@.subrange(i as int, k as int),
        decreases j - k,
    {
        r.push(v[k]);
        k = k + 1;
    }
    r
}

/// Splits `s` into its non-blank lines, trimmed.
pub fn tokenize(s: &str) -> (r: Vec<Vec<char>>)
    ensures
        r@.map_values(|t: Vec<char>| t@) == tokens(s@),
{
    let cs = chars_of(s);
    let mut toks: Vec<Vec<char>> = Vec::new();
    let mut cur: Vec<char> = Vec::new();
    let ghost mut done: Seq<Seq<char>> = Seq::empty();
    let mut k: usize = 0;
    assert(cs@.take(0) =~= Seq::<char>::empty());
    while k < cs.len()
        invariant
            k <= cs.len(),
            split_nl(cs@.take(k as int)) == done.push(cur@),
            toks@.map_values(|t: Vec<char>| t@) == kept_lines(done),
        decreases cs.len() - k,
    {
        let c = cs[k];
        proof {
            assert(cs@.take(k + 1).drop_last() =~= cs@.take(k as int));
        }
        if c == '\n' {
            let t = trim_chars(&cur);
            proof {
                assert(done.push(cur@).drop_last() =~= done);
            }
            if t.len() > 0 {
                toks.push(t);
            }
            proof {
                assert(toks@.map_values(|t: Vec<char>| t@) =~= kept_lines(done.push(cur@)));
                done = done.push(cur@);
            }
            cur = Vec::new();
            proof {
                assert(split_nl(cs@.take(k + 1)) =~= done.push(cur@));
            }
        } else {
            cur.push(c);
            proof {
                assert(split_nl(cs@.take(k + 1)) =~= done.push(cur@));
            }
        }
        k = k + 1;
    }
    let t = trim_chars(&cur);
    proof {
        assert(done.push(cur@).drop_last() =~= done);
    }
    if t.len() > 0 {
        toks.push(t);
    }
    proof {
        assert(cs@.take(cs.len() as int) =~= s@);
        assert(toks@.map_values(|t: Vec<char>| t@) =~= kept_lines(done.push(cur@)));
    }
    toks
}

/// The characters of `s`, in order.
pub fn chars_of(s: &str) -> (r: Vec<char>)
    ensures
        r@ == s@,
{
    let mut r: Vec<char> = Vec::new();
    for c in it: s.chars()
        invariant
            r@ == it.seq().take(it.index() as int),
    {
        r.push(c);
    }
    proof {
        assert(r@ =~= s@);
    }
    r
}

pub open spec fn is_digit(c: char) -> bool {
    '0' <= c && c <= '9'
}

/// The value of a string of decimal digits.
pub open spec fn digits_value(s: Seq<char>) -> int
    decreases s.len(),
{
    if s.len() == 0 {
        0
    } else {
        digits_value(s.drop_last()) * 10 + (s.last() as int - '0' as int)
    }
}

/// `s` without its leading sign, if it has one.
pub open spec fn unsigned_part(s: Seq<char>) -> Seq<char> {
    if s.len() > 0 && (s[0] == '-' || s[0] == '+') {
        s.drop_first()
    } else {
        s
    }
}

/// What `i32::from_str` reads from `s`: an optional sign, then one or more digits,
/// with a value in range.
pub open spec fn int_value(s: Seq<char>) -> Option<int> {
    let body = unsigned_part(s);
    let mag = digits_value(body);
    let v = if s.len() > 0 && s[0] == '-' {
        -mag
    } else {
        mag
    };
    if body.len() == 0 || exists|k: int| 0 <= k < body.len() && !is_digit(#[trigger] body[k]) {
        None
    } else if i32::MIN <= v <= i32::MAX {
        Some(v)
    } else {
        None
    }
}

proof fn lemma_digits_prefix(s: Seq<char>, k: int)
    requires
        0 <= k <= s.len(),
        forall|t: int| 0 <= t < s.len() ==> is_digit(#[trigger] s[t]),
    ensures
        0 <= digits_value(s.take(k)) <= digits_value(s),
    decreases s.len() - k,
{
    if k < s.len() {
        lemma_digits_prefix(s, k + 1);
        assert(s.take(k + 1).drop_last() =~= s.take(k));
    } else {
        assert(s.take(k) =~= s);
    }
    lemma_digits_nonneg(s.take(k));
}

proof fn lemma_digits_nonneg(s: Seq<char>)
    requires
        forall|t: int| 0 <= t < s.len() ==> is_digit(#[trigger] s[t]),
    ensures
        digits_value(s) >= 0,
    decreases s.len(),
{
    if s.len() > 0 {
        lemma_digits_nonneg(s.drop_last());
    }
}

/// Reads a record's tag as `i32::from_str` does.
pub fn parse_tag(t: &Vec<char>) -> (r: Option<i32>)
    ensures
        r matches Some(v) ==> int_value(t@) == Some(v as int),
        r is None ==> int_value(t@) is None,
{
    let n = t.len();
    let signed = n > 0 && (t[0] == '-' || t[0] == '+');
    let neg = n > 0 && t[0] == '-';
    let start: usize = if signed { 1 } else { 0 };
    let ghost body = unsigned_part(t@);
    assert(body =~= t@.skip(start as int));
    if start == n {
        return None;
    }
    let mut acc: i64 = 0;
    let mut k: usize = start;
    assert(body.take(0) =~= Seq::<char>::empty());
    while k < n
        invariant
            start <= k <= n,
            n == t.len(),
            body == t@.skip(start as int),
            body == unsigned_part(t@),
            forall|j: int| 0 <= j < k - start ==> is_digit(#[trigger] body[j]),
            acc == digits_value(body.take(k - start)),
            0 <= acc <= 2147483648,
        decreases n - k,
    {
        let c = t[k];
        if !('0' <= c && c <= '9') {
            proof {
                let j = k - start;
                assert(!is_digit(body[j]));
                assert(exists|j: int| 0 <= j < body.len() && !is_digit(#[trigger] body[j]));
            }
            return None;
        }
        proof {
            assert(body.take(k + 1 - start).drop_last() =~= body.take(k - start));
        }
        acc = acc * 10 + (c as i64 - '0' as i64);
        k = k + 1;
        if acc > 2147483648 {
            proof {
                if forall|j: int| 0 <= j < body.len() ==> is_digit(#[trigger] body[j]) {
                    lemma_digits_prefix(body, k - start);
                }
            }
            return None;
        }
    }
    assert(body.take(n - start) =~= body);
    let v: i64 = if neg { -acc } else { acc };
    if v < -2147483648 || v > 2147483647 {
        None
    } else {
        Some(v as i32)
    }
}

/// Whether `v` holds exactly the characters of `w`.
pub fn is_word(v: &Vec<char>, w: &str) -> (r: bool)
    ensures
        r == (v@ == w@),
{
    let cs = chars_of(w);
    if v.len() != cs.len() {
        return false;
    }
    let mut k: usize = 0;
    while k < v.len()
        invariant
            v.len() == cs.len(),
            k <= v.len(),
            cs@ == w@,
            forall|j: int| 0 <= j < k ==> v@[j] == cs@[j],
        decreases v.len() - k,
    {
        if v[k] != cs[k] {
            return false;
        }
        k = k + 1;
    }
    assert(v@ =~= w@);
    true
}

/// Where the reader stands in a document.
#[derive(Clone, Copy, Debug, PartialEq, Eq, Structural)]
pub enum Mode {
    /// Between sections.
    Outside,
    /// After `SECTION`, waiting for the section's name.
    Header,
    /// Inside a section other than `ENTITIES`.
    Skip,
    /// Inside `ENTITIES`, between entities.
    Dispatch,
    /// Inside a `LINE` entity.
    InLine,
}

/// For each coordinate of the `LINE` being read, the index of the token that last
/// gave it a value.
#[derive(Clone, Copy, Debug, PartialEq, Eq, Structural)]
pub struct Slots {
    pub x1: Option<usize>,
    pub y1: Option<usize>,
    pub x2: Option<usize>,
    pub y2: Option<usize>,
}

/// A `LINE` entity as the token positions of its coordinates.
#[derive(Clone, Copy, Debug, PartialEq, Eq, Structural)]
pub struct LineAt {
    pub x1: usize,
    pub y1: usize,
    pub x2: usize,
    pub y2: usize,
}

/// Why a document was refused. Token positions index the document's tokens.
#[derive(Clone, Copy, Debug, PartialEq, Eq, Structural)]
pub enum Fault {
    /// The tag at this position is not an integer.
    BadTag(usize),
    /// The stream ended before `EOF`: between records, or after a tag before its value.
    Eof,
    /// Between sections, this tag stood where tag 0 was due.
    NotOpening(i32),
    /// Between sections, this value stood where `SECTION` was due.
    NotSection(usize),
    /// After `SECTION`, this tag stood where the name's tag 2 was due.
    NotHeader(i32),
    /// An entity of an unsupported type, named by the value at this position.
    Unsupported(usize),
    /// A `LINE` ended without a value for this tag.
    Missing(i32),
}

/// What one record does to the reader.
#[derive(Clone, Copy, Debug, PartialEq, Eq, Structural)]
pub enum Feed {
    /// The document ends here.
    Halt,
    /// The document is refused.
    Fail(Fault),
    /// Reading goes on in `mode` with `slots`; `emit` holds a finished `LINE`.
    Go { mode: Mode, slots: Slots, emit: Option<LineAt> },
}

pub open spec fn no_slots() -> Slots {
    Slots { x1: None, y1: None, x2: None, y2: None }
}

/// Records that token `v` holds the value of coordinate tag `tag`.
pub open spec fn spec_set_slot(s: Slots, tag: int, v: usize) -> Slots {
    if tag == 10 {
        Slots { x1: Some(v), ..s }
    } else if tag == 20 {
        Slots { y1: Some(v), ..s }
    } else if tag == 11 {
        Slots { x2: Some(v), ..s }
    } else if tag == 21 {
        Slots { y2: Some(v), ..s }
    } else {
        s
    }
}

/// A record `(tag, value)` met between entities of the `ENTITIES` section.
pub open spec fn spec_dispatch(tag: int, value: Seq<char>, slots: Slots, v: usize) -> Feed {
    if tag == 0 {
        if value == "LINE"@ {
            Feed::Go { mode: Mode::InLine, slots: no_slots(), emit: None }
        } else if value == "ENDSEC"@ {
            Feed::Go { mode: Mode::Outside, slots, emit: None }
        } else {
            Feed::Fail(Fault::Unsupported(v))
        }
    } else {
        Feed::Go { mode: Mode::Dispatch, slots, emit: None }
    }
}

/// The effect of the record `(tag, value)`, whose value is token `v`, in `mode`.
pub open spec fn spec_feed(mode: Mode, slots: Slots, tag: int, v: usize, value: Seq<char>) -> Feed {
    match mode {
        Mode::Outside => if tag != 0 {
            Feed::Fail(Fault::NotOpening(tag as i32))
        } else if value == "EOF"@ {
            Feed::Halt
        } else if value != "SECTION"@ {
            Feed::Fail(Fault::NotSection(v))
        } else {
            Feed::Go { mode: Mode::Header, slots, emit: None }
        },
        Mode::Header => if tag == 2 {
            Feed::Go {
                mode: if value == "ENTITIES"@ {
                    Mode::Dispatch
                } else {
                    Mode::Skip
                },
                slots,
                emit: None,
            }
        } else {
            Feed::Fail(Fault::NotHeader(tag as i32))
        },
        Mode::Skip => Feed::Go {
            mode: if tag == 0 && value == "ENDSEC"@ {
                Mode::Outside
            } else {
                Mode::Skip
            },
            slots,
            emit: None,
        },
        Mode::Dispatch => spec_dispatch(tag, value, slots, v),
        Mode::InLine => if tag == 0 {
            if slots.x1 is None {
                Feed::Fail(Fault::Missing(10))
            } else if slots.y1 is None {
                Feed::Fail(Fault::Missing(20))
            } else if slots.x2 is None {
                Feed::Fail(Fault::Missing(11))
            } else if slots.y2 is None {
                Feed::Fail(Fault::Missing(21))
            } else {
                let line = LineAt { x1: slots.x1->0, y1: slots.y1->0, x2: slots.x2->0, y2: slots.y2->0 };
                match spec_dispatch(tag, value, no_slots(), v) {
                    Feed::Go { mode, slots, .. } => Feed::Go { mode, slots, emit: Some(line) },
                    other => other,
                }
            }
        } else {
            Feed::Go { mode: Mode::InLine, slots: spec_set_slot(slots, tag, v), emit: None }
        },
    }
}

/// Reads the records of `toks` from position `p` on, in `mode` with `slots`, after the
/// `LINE`s `out`: the `LINE`s of the document, as token positions of their
/// coordinates, or why it is refused.
pub open spec fn spec_run(
    toks: Seq<Seq<char>>,
    p: int,
    mode: Mode,
    slots: Slots,
    out: Seq<LineAt>,
) -> Result<Seq<LineAt>, Fault>
    decreases toks.len() - p,
{
    if p >= toks.len() || p < 0 {
        Err(Fault::Eof)
    } else {
        match int_value(toks[p]) {
            None => Err(Fault::BadTag(p as usize)),
            Some(tag) => if p + 1 >= toks.len() {
                Err(Fault::Eof)
            } else {
                match spec_feed(mode, slots, tag, (p + 1) as usize, toks[p + 1]) {
                    Feed::Halt => Ok(out),
                    Feed::Fail(f) => Err(f),
                    Feed::Go { mode, slots, emit } => spec_run(
                        toks,
                        p + 2,
                        mode,
                        slots,
                        match emit {
                            Some(q) => out.push(q),
                            None => out,
                        },
                    ),
                }
            },
        }
    }
}

/// The `LINE`s of document `s`, as token positions of their coordinates, or why it
/// is refused.
pub open spec fn spec_parse(s: Seq<char>) -> Result<Seq<LineAt>, Fault> {
    spec_run(tokens(s), 0, Mode::Outside, no_slots(), Seq::empty())
}

fn set_slot(s: Slots, tag: i32, v: usize) -> (r: Slots)
    ensures
        r == spec_set_slot(s, tag as int, v),
{
    if tag == 10 {
        Slots { x1: Some(v), ..s }
    } else if tag == 20 {
        Slots { y1: Some(v), ..s }
    } else if tag == 11 {
        Slots { x2: Some(v), ..s }
    } else if tag == 21 {
        Slots { y2: Some(v), ..s }
    } else {
        s
    }
}

fn dispatch(tag: i32, value: &Vec<char>, slots: Slots, v: usize) -> (r: Feed)
    ensures
        r == spec_dispatch(tag as int, value@, slots, v),
{
    if tag == 0 {
        if is_word(value, "LINE") {
            Feed::Go { mode: Mode::InLine, slots: Slots { x1: None, y1: None, x2: None, y2: None }, emit: None }
        } else if is_word(value, "ENDSEC") {
            Feed::Go { mode: Mode::Outside, slots, emit: None }
        } else {
            Feed::Fail(Fault::Unsupported(v))
        }
    } else {
        Feed::Go { mode: Mode::Dispatch, slots, emit: None }
    }
}

/// Applies the record `(tag, value)`, whose value is token `v`, in `mode`.
pub fn feed(mode: Mode, slots: Slots, tag: i32, v: usize, value: &Vec<char>) -> (r: Feed)
    ensures
        r == spec_feed(mode, slots, tag as int, v, value@),
{
    match mode {
        Mode::Outside => if tag != 0 {
            Feed::Fail(Fault::NotOpening(tag))
        } else if is_word(value, "EOF") {
            Feed::Halt
        } else if !is_word(value, "SECTION") {
            Feed::Fail(Fault::NotSection(v))
        } else {
            Feed::Go { mode: Mode::Header, slots, emit: None }
        },
        Mode::Header => if tag == 2 {
            let mode = if is_word(value, "ENTITIES") {
                Mode::Dispatch
            } else {
                Mode::Skip
            };
            Feed::Go { mode, slots, emit: None }
        } else {
            Feed::Fail(Fault::NotHeader(tag))
        },
        Mode::Skip => {
            let mode = if tag == 0 && is_word(value, "ENDSEC") {
                Mode::Outside
            } else {
                Mode::Skip
            };
            Feed::Go { mode, slots, emit: None }
        },
        Mode::Dispatch => dispatch(tag, value, slots, v),
        Mode::InLine => if tag == 0 {
            match (slots.x1, slots.y1, slots.x2, slots.y2) {
                (None, _, _, _) => Feed::Fail(Fault::Missing(10)),
                (_, None, _, _) => Feed::Fail(Fault::Missing(20)),
                (_, _, None, _) => Feed::Fail(Fault::Missing(11)),
                (_, _, _, None) => Feed::Fail(Fault::Missing(21)),
                (Some(a), Some(b), Some(c), Some(d)) => {
                    let empty = Slots { x1: None, y1: None, x2: None, y2: None };
                    match dispatch(tag, value, empty, v) {
                        Feed::Go { mode, slots, .. } => Feed::Go { mode, slots, emit: Some(LineAt { x1: a, y1: b, x2: c, y2: d }) },
                        other => other,
                    }
                },
            }
        } else {
            Feed::Go { mode: Mode::InLine, slots: set_slot(slots, tag, v), emit: None }
        },
    }
}

/// An entity of a drawing, with each number as the decimal text that the document
/// holds for it.
pub enum Entity {
    Line { x1: String, y1: String, x2: String, y2: String },
    Arc { cx: String, cy: String, radius: String, start_angle: String, end_angle: String },
    Circle { cx: String, cy: String, radius: String },
}

/// The entities of a document, in order.
pub struct Drawing {
    pub entities: Vec<Entity>,
}

/// Entity `e` is the `LINE` whose coordinates stand at positions `q` of `toks`.
pub open spec fn is_line_at(e: Entity, toks: Seq<Seq<char>>, q: LineAt) -> bool {
    match e {
        Entity::Line { x1, y1, x2, y2 } => {
            &&& x1@ == toks[q.x1 as int]
            &&& y1@ == toks[q.y1 as int]
            &&& x2@ == toks[q.x2 as int]
            &&& y2@ == toks[q.y2 as int]
        },
        _ => false,
    }
}

/// Relies on `String`'s `FromIterator<&char>`: the string holds the characters in order.
#[verifier::external_body]
fn text_of(v: &Vec<char>) -> (r: String)
    ensures
        r@ == v@,
{
    String::from_iter(v.iter())
}

proof fn lemma_run_bounds(
    toks: Seq<Seq<char>>,
    p: int,
    mode: Mode,
    slots: Slots,
    out: Seq<LineAt>,
)
    requires
        0 <= p,
        forall|k: int| 0 <= k < out.len() ==> (#[trigger] out[k]).x1 < toks.len() && out[k].y1 < toks.len()
            && out[k].x2 < toks.len() && out[k].y2 < toks.len(),
        slots.x1 matches Some(v) ==> v < toks.len(),
        slots.y1 matches Some(v) ==> v < toks.len(),
        slots.x2 matches Some(v) ==> v < toks.len(),
        slots.y2 matches Some(v) ==> v < toks.len(),
    ensures
        spec_run(toks, p, mode, slots, out) matches Ok(qs) ==> forall|k: int| 0 <= k < qs.len() ==> (#[trigger] qs[k]).x1 < toks.len()
            && qs[k].y1 < toks.len() && qs[k].x2 < toks.len() && qs[k].y2 < toks.len(),
    decreases toks.len() - p,
{
    if p < toks.len() && p + 1 < toks.len() {
        if let Some(tag) = int_value(toks[p]) {
            match spec_feed(mode, slots, tag, (p + 1) as usize, toks[p + 1]) {
                Feed::Go { mode: m2, slots: s2, emit } => {
                    let o2 = match emit {
                        Some(q) => out.push(q),
                        None => out,
                    };
                    assert forall|k: int| 0 <= k < o2.len() implies (#[trigger] o2[k]).x1 < toks.len() && o2[k].y1
                        < toks.len() && o2[k].x2 < toks.len() && o2[k].y2 < toks.len() by {
                        if k < out.len() {
                            assert(o2[k] == out[k]);
                        }
                    }
                    lemma_run_bounds(toks, p + 2, m2, s2, o2);
                },
                _ => {},
            }
        }
    }
}

/// Token `k` of `toks`, or nothing where there is no such token.
pub open spec fn token_or_empty(toks: Seq<Seq<char>>, k: int) -> Seq<char> {
    if 0 <= k < toks.len() {
        toks[k]
    } else {
        Seq::empty()
    }
}

/// The message of the error that reports `f`.
pub open spec fn fault_message(f: Fault, toks: Seq<Seq<char>>) -> Seq<char> {
    match f {
        Fault::BadTag(p) => "invalid tag: "@ + token_or_empty(toks, p as int),
        Fault::Eof => "unexpected eof"@,
        Fault::NotOpening(got) => "unexpected tag: "@ + int_text(got as int) + ", expected: "@ + int_text(0),
        Fault::NotSection(v) => "expected SECTION, got "@ + token_or_empty(toks, v as int),
        Fault::NotHeader(got) => "unexpected tag: "@ + int_text(got as int) + ", expected: "@ + int_text(2),
        Fault::Unsupported(v) => "unsupported entity type: "@ + token_or_empty(toks, v as int),
        Fault::Missing(tag) => "missing tag for entity: "@ + int_text(tag as int),
    }
}

fn text_after(head: &str, toks: &Vec<Vec<char>>, k: usize) -> (r: WeldError)
    ensures
        r.message@ == head@ + token_or_empty(toks@.map_values(|t: Vec<char>| t@), k as int),
{
    let mut m = String::from_str(head);
    if k < toks.len() {
        let t = text_of(&toks[k]);
        m.append(t.as_str());
        proof {
            assert(toks@.map_values(|t: Vec<char>| t@)[k as int] == toks@[k as int]@);
        }
    } else {
        proof {
            assert(m@ =~= head@ + Seq::<char>::empty());
        }
    }
    WeldError::new(m)
}

fn fault_error(f: Fault, toks: &Vec<Vec<char>>) -> (r: WeldError)
    ensures
        r.message@ == fault_message(f, toks@.map_values(|t: Vec<char>| t@)),
{
    match f {
        Fault::BadTag(p) => text_after("invalid tag: ", toks, p),
        Fault::Eof => eof(),
        Fault::NotOpening(got) => unexpected_tag(0, got),
        Fault::NotSection(v) => text_after("expected SECTION, got ", toks, v),
        Fault::NotHeader(got) => unexpected_tag(2, got),
        Fault::Unsupported(v) => text_after("unsupported entity type: ", toks, v),
        Fault::Missing(tag) => missing_tag_for_entity(tag),
    }
}

impl Drawing {
    /// Reads the `LINE` entities of the `ENTITIES` section of a document; other
    /// sections are skipped whole. Reading stops at `EOF`; text that ends before it
    /// is refused.
    pub fn parse(src: &str) -> (r: Result<Drawing, WeldError>)
        ensures
            spec_parse(src@) matches Err(f) ==> r matches Err(e) && e.message@ == fault_message(f, tokens(src@)),
            spec_parse(src@) matches Ok(qs) ==> r matches Ok(d) && d.entities.len() == qs.len() && forall|k: int|
                0 <= k < qs.len() ==> is_line_at(#[trigger] d.entities@[k], tokens(src@), qs[k]),
    {
        let toks = tokenize(src);
        let ghost ts = tokens(src@);
        assert(forall|k: int| 0 <= k < toks.len() ==> #[trigger] toks@[k]@ == ts[k]) by {
            assert forall|k: int| 0 <= k < toks.len() implies #[trigger] toks@[k]@ == ts[k] by {
                assert(toks@.map_values(|t: Vec<char>| t@)[k] == toks@[k]@);
            }
        }
        let n = toks.len();
        let mut mode = Mode::Outside;
        let mut slots = Slots { x1: None, y1: None, x2: None, y2: None };
        let mut entities: Vec<Entity> = Vec::new();
        let ghost mut out: Seq<LineAt> = Seq::empty();
        let mut p: usize = 0;
        proof {
            lemma_run_bounds(ts, 0, mode, slots, out);
        }
        let mut halted = false;
        while p < n && !halted
            invariant
                n == toks.len(),
                n == ts.len(),
                ts == tokens(src@),
                forall|k: int| 0 <= k < toks.len() ==> #[trigger] toks@[k]@ == ts[k],
                !halted ==> spec_run(ts, p as int, mode, slots, out) == spec_parse(src@),
                halted ==> spec_parse(src@) == Ok::<Seq<LineAt>, Fault>(out),
                entities.len() == out.len(),
                forall|k: int| 0 <= k < out.len() ==> is_line_at(#[trigger] entities@[k], ts, out[k]),
                forall|k: int| 0 <= k < out.len() ==> (#[trigger] out[k]).x1 < n && out[k].y1 < n
                    && out[k].x2 < n && out[k].y2 < n,
                slots.x1 matches Some(v) ==> v < n,
                slots.y1 matches Some(v) ==> v < n,
                slots.x2 matches Some(v) ==> v < n,
                slots.y2 matches Some(v) ==> v < n,
            decreases n - p + (if halted { 0int } else { 1int }),
        {
            let tag = match parse_tag(&toks[p]) {
                Some(t) => t,
                None => {
                    proof {
                        assert(toks@.map_values(|t: Vec<char>| t@) == ts);
                    }
                    return Err(fault_error(Fault::BadTag(p), &toks));
                },
            };
            if p + 1 >= n {
                return Err(fault_error(Fault::Eof, &toks));
            }
            match feed(mode, slots, tag, p + 1, &toks[p + 1]) {
                Feed::Halt => {
                    halted = true;
                },
                Feed::Fail(f) => {
                    proof {
                        assert(toks@.map_values(|t: Vec<char>| t@) == ts);
                    }
                    return Err(fault_error(f, &toks));
                },
                Feed::Go { mode: m2, slots: s2, emit } => {
                    match emit {
                        Some(q) => {
                            let e = Entity::Line {
                                x1: text_of(&toks[q.x1]),
                                y1: text_of(&toks[q.y1]),
                                x2: text_of(&toks[q.x2]),
                                y2: text_of(&toks[q.y2]),
                            };
                            entities.push(e);
                            proof {
                                out = out.push(q);
                            }
                        },
                        None => {},
                    }
                    mode = m2;
                    slots = s2;
                    p = p + 2;
                },
            }
        }
        if !halted {
            return Err(fault_error(Fault::Eof, &toks));
        }
        Ok(Drawing { entities })
    }
}

/// The two lines of the record `(tag, value)`: the tag indented by two spaces, then the value.
pub open spec fn record_text(tag: int, value: Seq<char>) -> Seq<char> {
    "  "@ + int_text(tag) + "\n"@ + value + "\n"@
}

pub open spec fn records_text(rs: Seq<(int, Seq<char>)>) -> Seq<char>
    decreases rs.len(),
{
    if rs.len() == 0 {
        Seq::empty()
    } else {
        records_text(rs.drop_last()) + record_text(rs.last().0, rs.last().1)
    }
}

/// The records that stand for one entity.
pub open spec fn entity_records(e: Entity) -> Seq<(int, Seq<char>)> {
    match e {
        Entity::Line { x1, y1, x2, y2 } => seq![
            (0, "LINE"@),
            (8, "0"@),
            (10, x1@),
            (20, y1@),
            (11, x2@),
            (21, y2@),
        ],
        Entity::Arc { cx, cy, radius, start_angle, end_angle } => seq![
            (0, "ARC"@),
            (8, "0"@),
            (10, cx@),
            (20, cy@),
            (40, radius@),
            (50, start_angle@),
            (51, end_angle@),
        ],
        Entity::Circle { cx, cy, radius } => seq![
            (0, "CIRCLE"@),
            (8, "0"@),
            (10, cx@),
            (20, cy@),
            (40, radius@),
        ],
    }
}

pub open spec fn entities_records(es: Seq<Entity>) -> Seq<(int, Seq<char>)>
    decreases es.len(),
{
    if es.len() == 0 {
        Seq::empty()
    } else {
        entities_records(es.drop_last()) + entity_records(es.last())
    }
}

pub open spec fn head_records() -> Seq<(int, Seq<char>)> {
    seq![(0, "SECTION"@), (2, "BLOCKS"@), (0, "ENDSEC"@), (0, "SECTION"@), (2, "ENTITIES"@)]
}

pub open spec fn tail_records() -> Seq<(int, Seq<char>)> {
    seq![(0, "ENDSEC"@), (0, "SECTION"@), (2, "OBJECTS"@), (0, "DICTIONARY"@), (0, "ENDSEC"@), (0, "EOF"@)]
}

/// The records of a whole document: an empty `BLOCKS` section, the entities in an
/// `ENTITIES` section, an `OBJECTS` section with one empty `DICTIONARY`, and `EOF`.
pub open spec fn document_records(es: Seq<Entity>) -> Seq<(int, Seq<char>)> {
    head_records() + entities_records(es) + tail_records()
}

/// Appends the record `(tag, data)` to `out`.
pub fn emit(out: &mut String, tag: i32, data: &str)
    ensures
        final(out)@ == old(out)@ + record_text(tag as int, data@),
{
    proof {
        reveal_strlit("  ");
        reveal_strlit("\n");
    }
    out.append("  ");
    push_int(out, tag);
    out.append("\n");
    out.append(data);
    out.append("\n");
    proof {
        assert(final(out)@ =~= old(out)@ + record_text(tag as int, data@));
    }
}

fn emit_step(out: &mut String, tag: i32, data: &str, Ghost(done): Ghost<Seq<(int, Seq<char>)>>)
    requires
        old(out)@ == records_text(done),
    ensures
        final(out)@ == records_text(done.push((tag as int, data@))),
{
    emit(out, tag, data);
    proof {
        assert(done.push((tag as int, data@)).drop_last() =~= done);
    }
}

fn emit_entity(out: &mut String, e: &Entity, Ghost(done): Ghost<Seq<(int, Seq<char>)>>)
    requires
        old(out)@ == records_text(done),
    ensures
        final(out)@ == records_text(done + entity_records(*e)),
{
    let ghost d0 = done;
    match e {
        Entity::Line { x1, y1, x2, y2 } => {
            emit_step(out, 0, "LINE", Ghost(d0));
            let ghost d1 = d0.push((0, "LINE"@));
            emit_step(out, 8, "0", Ghost(d1));
            let ghost d2 = d1.push((8, "0"@));
            emit_step(out, 10, x1.as_str(), Ghost(d2));
            let ghost d3 = d2.push((10, x1@));
            emit_step(out, 20, y1.as_str(), Ghost(d3));
            let ghost d4 = d3.push((20, y1@));
            emit_step(out, 11, x2.as_str(), Ghost(d4));
            let ghost d5 = d4.push((11, x2@));
            emit_step(out, 21, y2.as_str(), Ghost(d5));
            assert(d5.push((21, y2@)) =~= done + entity_records(*e));
        },
        Entity::Arc { cx, cy, radius, start_angle, end_angle } => {
            emit_step(out, 0, "ARC", Ghost(d0));
            let ghost d1 = d0.push((0, "ARC"@));
            emit_step(out, 8, "0", Ghost(d1));
            let ghost d2 = d1.push((8, "0"@));
            emit_step(out, 10, cx.as_str(), Ghost(d2));
            let ghost d3 = d2.push((10, cx@));
            emit_step(out, 20, cy.as_str(), Ghost(d3));
            let ghost d4 = d3.push((20, cy@));
            emit_step(out, 40, radius.as_str(), Ghost(d4));
            let ghost d5 = d4.push((40, radius@));
            emit_step(out, 50, start_angle.as_str(), Ghost(d5));
            let ghost d6 = d5.push((50, start_angle@));
            emit_step(out, 51, end_angle.as_str(), Ghost(d6));
            assert(d6.push((51, end_angle@)) =~= done + entity_records(*e));
        },
        Entity::Circle { cx, cy, radius } => {
            emit_step(out, 0, "CIRCLE", Ghost(d0));
            let ghost d1 = d0.push((0, "CIRCLE"@));
            emit_step(out, 8, "0", Ghost(d1));
            let ghost d2 = d1.push((8, "0"@));
            emit_step(out, 10, cx.as_str(), Ghost(d2));
            let ghost d3 = d2.push((10, cx@));
            emit_step(out, 20, cy.as_str(), Ghost(d3));
            let ghost d4 = d3.push((20, cy@));
            emit_step(out, 40, radius.as_str(), Ghost(d4));
            assert(d4.push((40, radius@)) =~= done + entity_records(*e));
        },
    }
}

impl Drawing {
    /// Succeeds exactly when every entity is a `LINE`: the welder takes nothing else.
    pub fn require_lines(&self) -> (r: Result<(), WeldError>)
        ensures
            r is Ok <==> forall|k: int| 0 <= k < self.entities.len() ==> #[trigger] self.entities@[k] is Line,
    {
        let mut k: usize = 0;
        while k < self.entities.len()
            invariant
                k <= self.entities.len(),
                forall|t: int| 0 <= t < k ==> #[trigger] self.entities@[t] is Line,
            decreases self.entities.len() - k,
        {
            match &self.entities[k] {
                Entity::Line { .. } => {},
                _ => {
                    return Err(WeldError::new(String::from_str("cannot weld a drawing with an entity other than LINE")));
                },
            }
            k = k + 1;
        }
        Ok(())
    }

    /// Writes the drawing as a document.
    pub fn to_string(&self) -> (r: String)
        ensures
            r@ == records_text(document_records(self.entities@)),
    {
        let mut out = String::new();
        let ghost mut done: Seq<(int, Seq<char>)> = Seq::empty();
        emit_step(&mut out, 0, "SECTION", Ghost(done));
        proof { done = done.push((0, "SECTION"@)); }
        emit_step(&mut out, 2, "BLOCKS", Ghost(done));
        proof { done = done.push((2, "BLOCKS"@)); }
        emit_step(&mut out, 0, "ENDSEC", Ghost(done));
        proof { done = done.push((0, "ENDSEC"@)); }
        emit_step(&mut out, 0, "SECTION", Ghost(done));
        proof { done = done.push((0, "SECTION"@)); }
        emit_step(&mut out, 2, "ENTITIES", Ghost(done));
        proof {
            done = done.push((2, "ENTITIES"@));
            assert(done =~= head_records() + entities_records(self.entities@.take(0)));
        }
        let mut k: usize = 0;
        while k < self.entities.len()
            invariant
                k <= self.entities.len(),
                done == head_records() + entities_records(self.entities@.take(k as int)),
                out@ == records_text(done),
            decreases self.entities.len() - k,
        {
            emit_entity(&mut out, &self.entities[k], Ghost(done));
            proof {
                assert(self.entities@.take(k + 1).drop_last() =~= self.entities@.take(k as int));
                done = done + entity_records(self.entities@[k as int]);
                assert(done =~= head_records() + entities_records(self.entities@.take(k + 1)));
            }
            k = k + 1;
        }
        proof {
            assert(self.entities@.take(k as int) =~= self.entities@);
        }
        emit_step(&mut out, 0, "ENDSEC", Ghost(done));
        proof { done = done.push((0, "ENDSEC"@)); }
        emit_step(&mut out, 0, "SECTION", Ghost(done));
        proof { done = done.push((0, "SECTION"@)); }
        emit_step(&mut out, 2, "OBJECTS", Ghost(done));
        proof { done = done.push((2, "OBJECTS"@)); }
        emit_step(&mut out, 0, "DICTIONARY", Ghost(done));
        proof { done = done.push((0, "DICTIONARY"@)); }
        emit_step(&mut out, 0, "ENDSEC", Ghost(done));
        proof { done = done.push((0, "ENDSEC"@)); }
        emit_step(&mut out, 0, "EOF", Ghost(done));
        proof {
            done = done.push((0, "EOF"@));
            assert(done =~= document_records(self.entities@));
        }
        out
    }
}

} // verus!
