//! The level-cap table: how many Hoenn badges allow which maximum level.
//!
//! `caps.txt` holds one `badges=cap` entry per line; blank lines and lines
//! starting with `#` are ignored. ORAS has 8 league badges, so valid badge
//! counts are `0..=8`, and caps lie in `1..=100`.
use std::collections::BTreeMap;
use vstd::prelude::*;
use vstd::string::StringExecFns;

use crate::text::{
    is_space, lemma_span_until, trim_start,
    chars_of, decimal, find_char, parse_u8, parse_u8_range, push_decimal, push_str, span_until,
    string_from_range, trim, trim_range,
};

verus! {

broadcast use {vstd::laws_cmp::group_laws_cmp, vstd::std_specs::btree::group_btree_axioms};

/// Why a cap file was refused, or why a badge count has no cap.
#[derive(Debug)]
pub enum CapError {
    /// A non-comment line without `=`; `text` is the trimmed line.
    MissingEquals { line: usize, text: String },
    /// The part before `=` is no `u8`; `text` is that part.
    BadgesUnparsable { line: usize, text: String },
    /// The part after `=` is no `u8`; `text` is that part.
    CapUnparsable { line: usize, text: String },
    /// A badge count above 8.
    TooManyBadges { line: usize, badges: u8 },
    /// A cap outside `1..=100`.
    CapOutOfRange { line: usize, cap: u8 },
    /// A badge count defined a second time.
    DuplicateBadges { line: usize, badges: u8 },
    /// No entry for 0 badges.
    MissingZeroBadges,
    /// A lookup of a badge count the table does not define; `defined` lists
    /// the defined counts in ascending order.
    NoCap { badges: u8, defined: Vec<u8> },
}

/// Mathematical form of [`CapError`].
pub enum CapErrorView {
    MissingEquals { line: nat, text: Seq<char> },
    BadgesUnparsable { line: nat, text: Seq<char> },
    CapUnparsable { line: nat, text: Seq<char> },
    TooManyBadges { line: nat, badges: u8 },
    CapOutOfRange { line: nat, cap: u8 },
    DuplicateBadges { line: nat, badges: u8 },
    MissingZeroBadges,
    NoCap { badges: u8, defined: Seq<u8> },
}

impl View for CapError {
    type V = CapErrorView;

    open spec fn view(&self) -> CapErrorView {
        match self {
            CapError::MissingEquals { line, text } => CapErrorView::MissingEquals {
                line: *line as nat,
                text: text@,
            },
            CapError::BadgesUnparsable { line, text } => CapErrorView::BadgesUnparsable {
                line: *line as nat,
                text: text@,
            },
            CapError::CapUnparsable { line, text } => CapErrorView::CapUnparsable {
                line: *line as nat,
                text: text@,
            },
            CapError::TooManyBadges { line, badges } => CapErrorView::TooManyBadges {
                line: *line as nat,
                badges: *badges,
            },
            CapError::CapOutOfRange { line, cap } => CapErrorView::CapOutOfRange {
                line: *line as nat,
                cap: *cap,
            },
            CapError::DuplicateBadges { line, badges } => CapErrorView::DuplicateBadges {
                line: *line as nat,
                badges: *badges,
            },
            CapError::MissingZeroBadges => CapErrorView::MissingZeroBadges,
            CapError::NoCap { badges, defined } => CapErrorView::NoCap {
                badges: *badges,
                defined: defined@,
            },
        }
    }
}

/// The highest badge count ORAS knows.
pub const MAX_BADGES: u8 = 8;

/// The highest level cap.
pub const MAX_LEVEL: u8 = 100;

/// A table that maps badge counts in `0..=8` to caps in `1..=100` and
/// defines a cap for 0 badges.
pub open spec fn valid_caps(m: Map<u8, u8>) -> bool {
    &&& m.contains_key(0)
    &&& forall|b: u8| #[trigger] m.contains_key(b) ==> b <= MAX_BADGES && 1 <= m[b] <= MAX_LEVEL
}

/// Effect of line number `lineno` (raw text `raw`) on the table `acc` built
/// from the lines before it.
pub open spec fn parse_cap_line(raw: Seq<char>, lineno: nat, acc: Map<u8, u8>) -> Result<
    Map<u8, u8>,
    CapErrorView,
> {
    let line = trim(raw);
    if line.len() == 0 || line[0] == '#' {
        Ok(acc)
    } else {
        let p = span_until(line, '=') as int;
        if p == line.len() {
            Err(CapErrorView::MissingEquals { line: lineno, text: line })
        } else {
            let k = line.subrange(0, p);
            let v = line.subrange(p + 1, line.len() as int);
            match parse_u8(trim(k)) {
                None => Err(CapErrorView::BadgesUnparsable { line: lineno, text: k }),
                Some(badges) => match parse_u8(trim(v)) {
                    None => Err(CapErrorView::CapUnparsable { line: lineno, text: v }),
                    Some(cap) => if badges > MAX_BADGES {
                        Err(CapErrorView::TooManyBadges { line: lineno, badges })
                    } else if cap == 0 || cap > MAX_LEVEL {
                        Err(CapErrorView::CapOutOfRange { line: lineno, cap })
                    } else if acc.contains_key(badges) {
                        Err(CapErrorView::DuplicateBadges { line: lineno, badges })
                    } else {
                        Ok(acc.insert(badges, cap))
                    },
                },
            }
        }
    }
}

/// Result of reading the text `rest`, whose first line has number
/// `lineno`, on top of the table `acc`. Lines end at `\n`; a carriage
/// return before it is white space and trimmed away.
pub open spec fn parse_cap_lines(rest: Seq<char>, lineno: nat, acc: Map<u8, u8>) -> Result<
    Map<u8, u8>,
    CapErrorView,
>
    decreases rest.len(),
{
    let e = span_until(rest, '\n') as int;
    if e >= rest.len() {
        match parse_cap_line(rest, lineno, acc) {
            Err(err) => Err(err),
            Ok(m) => if m.contains_key(0) {
                Ok(m)
            } else {
                Err(CapErrorView::MissingZeroBadges)
            },
        }
    } else {
        match parse_cap_line(rest.subrange(0, e), lineno, acc) {
            Err(err) => Err(err),
            Ok(m) => parse_cap_lines(rest.subrange(e + 1, rest.len() as int), lineno + 1, m),
        }
    }
}

/// What parsing the whole text of a cap file gives.
pub open spec fn spec_parse_caps(content: Seq<char>) -> Result<Map<u8, u8>, CapErrorView> {
    parse_cap_lines(content, 1, Map::empty())
}

/// Whether the line `seg` assigns cap `cap` to badge count `badges`.
pub open spec fn assigns_cap(seg: Seq<char>, badges: u8, cap: u8) -> bool {
    let line = trim(seg);
    let p = span_until(line, '=') as int;
    &&& line.len() > 0
    &&& line[0] != '#'
    &&& p < line.len()
    &&& parse_u8(trim(line.subrange(0, p))) == Some(badges)
    &&& parse_u8(trim(line.subrange(p + 1, line.len() as int))) == Some(cap)
}

/// Whether the line of `text` from `s` to `e` (between line breaks or the
/// ends of the text) assigns cap `cap` to badge count `badges`.
pub open spec fn line_assigns(text: Seq<char>, s: int, e: int, badges: u8, cap: u8) -> bool {
    &&& 0 <= s <= e <= text.len()
    &&& s == 0 || text[s - 1] == '\n'
    &&& e == text.len() || text[e] == '\n'
    &&& forall|k: int| s <= k < e ==> text[k] != '\n'
    &&& assigns_cap(text.subrange(s, e), badges, cap)
}

/// Each entry that a line adds to the table is assigned by that line.
proof fn lemma_cap_line_assigns(raw: Seq<char>, lineno: nat, acc: Map<u8, u8>)
    ensures
        parse_cap_line(raw, lineno, acc) matches Ok(m) ==> forall|b: u8|
            #[trigger] m.contains_key(b) ==> (acc.contains_key(b) && m[b] == acc[b]) || assigns_cap(
                raw,
                b,
                m[b],
            ),
{
    let line = trim(raw);
    if !(line.len() == 0 || line[0] == '#') {
        let p = span_until(line, '=') as int;
        if p != line.len() {
            let k = line.subrange(0, p);
            let v = line.subrange(p + 1, line.len() as int);
            if let Some(badges) = parse_u8(trim(k)) {
                if let Some(cap) = parse_u8(trim(v)) {
                    if let Ok(m) = parse_cap_line(raw, lineno, acc) {
                        assert(m == acc.insert(badges, cap));
                        lemma_span_until(line, '=', 0);
                        assert(assigns_cap(raw, badges, cap));
                    }
                }
            }
        }
    }
}

/// Each entry of the table read from `rest` on top of `acc` is one of
/// `acc` or assigned by a line of `rest`.
proof fn lemma_cap_lines_assign(rest: Seq<char>, lineno: nat, acc: Map<u8, u8>)
    ensures
        parse_cap_lines(rest, lineno, acc) matches Ok(m) ==> forall|b: u8|
            #[trigger] m.contains_key(b) ==> (acc.contains_key(b) && m[b] == acc[b]) || exists|
                s: int,
                e: int,
            | line_assigns(rest, s, e, b, m[b]),
    decreases rest.len(),
{
    let e = span_until(rest, '\n') as int;
    lemma_span_until(rest, '\n', 0);
    if e >= rest.len() {
        lemma_cap_line_assigns(rest, lineno, acc);
        if let Ok(m) = parse_cap_lines(rest, lineno, acc) {
            assert forall|b: u8| #[trigger] m.contains_key(b) implies (acc.contains_key(b) && m[b]
                == acc[b]) || exists|s: int, e2: int| line_assigns(rest, s, e2, b, m[b]) by {
                if !(acc.contains_key(b) && m[b] == acc[b]) {
                    assert(rest.subrange(0, rest.len() as int) =~= rest);
                    assert(line_assigns(rest, 0, rest.len() as int, b, m[b]));
                }
            }
        }
    } else {
        let line = rest.subrange(0, e);
        let tail = rest.subrange(e + 1, rest.len() as int);
        lemma_cap_line_assigns(line, lineno, acc);
        if let Ok(m1) = parse_cap_line(line, lineno, acc) {
            lemma_cap_lines_assign(tail, lineno + 1, m1);
            if let Ok(m) = parse_cap_lines(rest, lineno, acc) {
                assert forall|b: u8| #[trigger] m.contains_key(b) implies (acc.contains_key(b)
                    && m[b] == acc[b]) || exists|s: int, e2: int| line_assigns(rest, s, e2, b, m[b]) by {
                    if m1.contains_key(b) && m[b] == m1[b] {
                        if !(acc.contains_key(b) && m[b] == acc[b]) {
                            assert(line_assigns(rest, 0, e, b, m[b]));
                        }
                    } else {
                        let (s, e2) = choose|s: int, e2: int| line_assigns(tail, s, e2, b, m[b]);
                        assert(tail.subrange(s, e2) =~= rest.subrange(s + e + 1, e2 + e + 1));
                        assert forall|k: int| s + e + 1 <= k < e2 + e + 1 implies rest[k] != '\n' by {
                            assert(rest[k] == tail[k - e - 1]);
                        }
                        if s > 0 {
                            assert(rest[s + e] == tail[s - 1]);
                        }
                        if e2 < tail.len() {
                            assert(rest[e2 + e + 1] == tail[e2]);
                        }
                        assert(line_assigns(rest, s + e + 1, e2 + e + 1, b, m[b]));
                    }
                }
            }
        }
    }
}

/// Blanks (spaces, tabs, carriage returns) trim away completely.
proof fn lemma_blanks_trim_away(w: Seq<char>)
    requires
        forall|i: int| 0 <= i < w.len() ==> w[i] == ' ' || w[i] == '\t' || w[i] == '\r',
    ensures
        trim(w).len() == 0,
    decreases w.len(),
{
    if w.len() > 0 {
        assert(is_space(w[0]));
        let t = w.drop_first();
        assert forall|i: int| 0 <= i < t.len() implies t[i] == ' ' || t[i] == '\t' || t[i]
            == '\r' by {
            assert(t[i] == w[i + 1]);
        }
        lemma_blanks_trim_away(t);
        assert(trim_start(w) == trim_start(t));
    }
}

/// A line that is blank after trimming (only spaces, tabs or carriage
/// returns, such as an empty line of a CRLF file) is skipped: reading a text
/// that starts with such a line gives what reading the rest from the next
/// line number gives, and such a last line leaves the table as it is.
pub proof fn lemma_blank_line_skipped(
    w: Seq<char>,
    rest: Seq<char>,
    lineno: nat,
    acc: Map<u8, u8>,
)
    requires
        forall|i: int| 0 <= i < w.len() ==> w[i] == ' ' || w[i] == '\t' || w[i] == '\r',
    ensures
        parse_cap_lines(w + seq!['\n'] + rest, lineno, acc) == parse_cap_lines(
            rest,
            lineno + 1,
            acc,
        ),
        parse_cap_lines(w, lineno, acc) == if acc.contains_key(0) {
            Ok::<Map<u8, u8>, CapErrorView>(acc)
        } else {
            Err(CapErrorView::MissingZeroBadges)
        },
{
    lemma_blanks_trim_away(w);
    let text = w + seq!['\n'] + rest;
    lemma_span_until(text, '\n', w.len() as int);
    assert forall|i: int| 0 <= i < w.len() implies text[i] != '\n' by {
        assert(text[i] == w[i]);
    }
    assert(text[w.len() as int] == '\n');
    assert(span_until(text, '\n') == w.len());
    assert(text.subrange(0, w.len() as int) =~= w);
    assert(text.subrange(w.len() + 1 as int, text.len() as int) =~= rest);
    lemma_span_until(w, '\n', w.len() as int);
    assert forall|i: int| 0 <= i < w.len() implies w[i] != '\n' by {}
}

/// A line keeps the entries read before it, and an entry that it assigns is
/// in the table after it.
proof fn lemma_cap_line_keeps(raw: Seq<char>, lineno: nat, acc: Map<u8, u8>)
    ensures
        parse_cap_line(raw, lineno, acc) matches Ok(m) ==> {
            &&& forall|b: u8| #[trigger] acc.contains_key(b) ==> m.contains_key(b) && m[b] == acc[b]
            &&& forall|b: u8, c: u8|
                #[trigger] assigns_cap(raw, b, c) ==> m.contains_key(b) && m[b] == c
        },
{
    let line = trim(raw);
    lemma_span_until(line, '=', 0);
}

/// The table read from `rest` on top of `acc` keeps the entries of `acc`
/// and holds every entry that a line of `rest` assigns.
proof fn lemma_cap_lines_keep(rest: Seq<char>, lineno: nat, acc: Map<u8, u8>)
    ensures
        parse_cap_lines(rest, lineno, acc) matches Ok(m) ==> {
            &&& forall|b: u8| #[trigger] acc.contains_key(b) ==> m.contains_key(b) && m[b] == acc[b]
            &&& forall|s: int, e: int, b: u8, c: u8|
                #[trigger] line_assigns(rest, s, e, b, c) ==> m.contains_key(b) && m[b] == c
        },
    decreases rest.len(),
{
    let p = span_until(rest, '\n') as int;
    lemma_span_until(rest, '\n', 0);
    if p >= rest.len() {
        lemma_cap_line_keeps(rest, lineno, acc);
        if let Ok(m) = parse_cap_lines(rest, lineno, acc) {
            assert forall|s: int, e: int, b: u8, c: u8| #[trigger]
                line_assigns(rest, s, e, b, c) implies m.contains_key(b) && m[b] == c by {
                if s > 0 {
                    assert(rest[s - 1] != '\n');
                }
                if e < rest.len() {
                    assert(rest[e] != '\n');
                }
                assert(rest.subrange(s, e) =~= rest);
            }
        }
    } else {
        let line = rest.subrange(0, p);
        let tail = rest.subrange(p + 1, rest.len() as int);
        lemma_cap_line_keeps(line, lineno, acc);
        if let Ok(m1) = parse_cap_line(line, lineno, acc) {
            lemma_cap_lines_keep(tail, lineno + 1, m1);
            if let Ok(m) = parse_cap_lines(rest, lineno, acc) {
                assert forall|s: int, e: int, b: u8, c: u8| #[trigger]
                    line_assigns(rest, s, e, b, c) implies m.contains_key(b) && m[b] == c by {
                    if s == 0 {
                        if e < p {
                            assert(rest[e] == '\n');
                        }
                        if e > p {
                            assert(rest[p] != '\n');
                        }
                        assert(rest.subrange(s, e) =~= line);
                        assert(assigns_cap(line, b, c));
                        assert(m1.contains_key(b));
                    } else {
                        assert(rest[s - 1] == '\n');
                        assert(s - 1 >= p);
                        let s2 = s - p - 1;
                        let e2 = e - p - 1;
                        assert(tail.subrange(s2, e2) =~= rest.subrange(s, e));
                        assert forall|k: int| s2 <= k < e2 implies tail[k] != '\n' by {
                            assert(tail[k] == rest[k + p + 1]);
                        }
                        if s2 > 0 {
                            assert(tail[s2 - 1] == rest[s - 1]);
                        }
                        if e2 < tail.len() {
                            assert(tail[e2] == rest[e]);
                        }
                        assert(line_assigns(tail, s2, e2, b, c));
                    }
                }
            }
        }
    }
}

/// Every line of a text that reads as a table assigns its cap to its badge
/// count in that table: with no cap made up (the law before), the table's
/// caps are exactly those that the lines assign.
pub proof fn lemma_lines_give_caps(content: Seq<char>)
    ensures
        spec_parse_caps(content) matches Ok(m) ==> forall|s: int, e: int, b: u8, c: u8|
            #[trigger] line_assigns(content, s, e, b, c) ==> m.contains_key(b) && m[b] == c,
{
    lemma_cap_lines_keep(content, 1, Map::empty());
}

/// Every cap that the table read from a text holds is assigned by one of
/// the text's lines: no cap is made up.
pub proof fn lemma_parsed_caps_come_from_lines(content: Seq<char>)
    ensures
        spec_parse_caps(content) matches Ok(m) ==> forall|b: u8|
            #[trigger] m.contains_key(b) ==> exists|s: int, e: int|
                line_assigns(content, s, e, b, m[b]),
{
    lemma_cap_lines_assign(content, 1, Map::empty());
}

/// Mapping from the number of won Hoenn badges to the maximum level cap.
#[derive(Debug)]
pub struct CapTable {
    caps: BTreeMap<u8, u8>,
}

impl View for CapTable {
    type V = Map<u8, u8>;

    closed spec fn view(&self) -> Map<u8, u8> {
        self.caps@
    }
}

impl CapTable {
    #[verifier::type_invariant]
    spec fn inv(self) -> bool {
        valid_caps(self.caps@)
    }

    /// Parses the text of a `caps.txt` file.
    ///
    /// Succeeds exactly when every non-blank, non-comment line is
    /// `badges=cap` with a new badge count in `0..=8` and a cap in
    /// `1..=100`, and 0 badges is defined; otherwise the first offending
    /// line decides the error.
    pub fn parse(content: &str) -> (r: Result<CapTable, CapError>)
        requires
            content@.len() < usize::MAX,
        ensures
            match r {
                Ok(t) => spec_parse_caps(content@) == Ok::<Map<u8, u8>, CapErrorView>(t@)
                    && valid_caps(t@),
                Err(e) => spec_parse_caps(content@) == Err::<Map<u8, u8>, CapErrorView>(e@),
            },
    {
        let s = chars_of(content);
        let mut caps: BTreeMap<u8, u8> = BTreeMap::new();
        let mut pos: usize = 0;
        let mut lineno: usize = 1;
        assert(s@.subrange(0, s.len() as int) =~= s@);
        loop
            invariant
                s@ == content@,
                s.len() < usize::MAX,
                pos <= s.len(),
                1 <= lineno <= pos + 1,
                spec_parse_caps(content@) == parse_cap_lines(
                    s@.subrange(pos as int, s.len() as int),
                    lineno as nat,
                    caps@,
                ),
                forall|b: u8| #[trigger]
                    caps@.contains_key(b) ==> b <= MAX_BADGES && 1 <= caps@[b] <= MAX_LEVEL,
            decreases s.len() - pos,
        {
            let ghost rest = s@.subrange(pos as int, s.len() as int);
            let e = find_char(&s, pos, s.len(), '\n');
            proof {
                crate::text::lemma_span_until(rest, '\n', 0);
            }
            let ghost line_text = s@.subrange(pos as int, e as int);
            assert(line_text =~= (if e >= s.len() {
                rest
            } else {
                rest.subrange(0, e - pos)
            }));
            match Self::apply_line(&s, pos, e, lineno, &mut caps) {
                Err(err) => {
                    return Err(err);
                },
                Ok(()) => {},
            }
            if e == s.len() {
                if !caps.contains_key(&0) {
                    return Err(CapError::MissingZeroBadges);
                }
                let t = CapTable { caps };
                return Ok(t);
            }
            assert(rest.subrange(e - pos + 1, rest.len() as int) =~= s@.subrange(
                e + 1,
                s.len() as int,
            ));
            pos = e + 1;
            lineno += 1;
        }
    }

    /// Applies line number `lineno`, the text `s[start..end]`, to `caps`.
    fn apply_line(
        s: &Vec<char>,
        start: usize,
        end: usize,
        lineno: usize,
        caps: &mut BTreeMap<u8, u8>,
    ) -> (r: Result<(), CapError>)
        requires
            start <= end <= s.len(),
            forall|b: u8| #[trigger]
                old(caps)@.contains_key(b) ==> b <= MAX_BADGES && 1 <= old(caps)@[b] <= MAX_LEVEL,
        ensures
            forall|b: u8| #[trigger]
                final(caps)@.contains_key(b) ==> b <= MAX_BADGES && 1 <= final(caps)@[b]
                    <= MAX_LEVEL,
            match r {
                Ok(()) => parse_cap_line(s@.subrange(start as int, end as int), lineno as nat, old(caps)@)
                    == Ok::<Map<u8, u8>, CapErrorView>(final(caps)@),
                Err(e) => parse_cap_line(s@.subrange(start as int, end as int), lineno as nat, old(caps)@)
                    == Err::<Map<u8, u8>, CapErrorView>(e@),
            },
    {
        let (a, b) = trim_range(s, start, end);
        let ghost line = s@.subrange(a as int, b as int);
        if a == b || s[a] == '#' {
            return Ok(());
        }
        let eq = find_char(s, a, b, '=');
        if eq == b {
            return Err(CapError::MissingEquals { line: lineno, text: string_from_range(s, a, b) });
        }
        assert(line.subrange(0, eq - a) =~= s@.subrange(a as int, eq as int));
        assert(line.subrange(eq - a + 1, line.len() as int) =~= s@.subrange(eq + 1, b as int));
        let (ka, kb) = trim_range(s, a, eq);
        let badges = match parse_u8_range(s, ka, kb) {
            None => {
                return Err(
                    CapError::BadgesUnparsable { line: lineno, text: string_from_range(s, a, eq) },
                );
            },
            Some(v) => v,
        };
        let (va, vb) = trim_range(s, eq + 1, b);
        let cap = match parse_u8_range(s, va, vb) {
            None => {
                return Err(
                    CapError::CapUnparsable { line: lineno, text: string_from_range(s, eq + 1, b) },
                );
            },
            Some(v) => v,
        };
        if badges > MAX_BADGES {
            return Err(CapError::TooManyBadges { line: lineno, badges });
        }
        if cap == 0 || cap > MAX_LEVEL {
            return Err(CapError::CapOutOfRange { line: lineno, cap });
        }
        if caps.contains_key(&badges) {
            return Err(CapError::DuplicateBadges { line: lineno, badges });
        }
        caps.insert(badges, cap);
        Ok(())
    }

    /// The cap for the given badge count; a count that the table does not
    /// define is an error (no implicit fallback).
    pub fn cap_for(&self, badges: u8) -> (r: Result<u8, CapError>)
        ensures
            valid_caps(self@),
            self@.contains_key(badges) ==> r == Ok::<u8, CapError>(self@[badges]),
            !self@.contains_key(badges) ==> (r matches Err(e) && e@ == (CapErrorView::NoCap {
                badges,
                defined: sorted_keys(self@),
            })),
    {
        proof {
            use_type_invariant(self);
        }
        match self.caps.get(&badges) {
            Some(c) => Ok(*c),
            None => Err(CapError::NoCap { badges, defined: self.defined_badge_counts() }),
        }
    }

    /// The defined badge counts, in ascending order.
    pub fn defined_badge_counts(&self) -> (v: Vec<u8>)
        ensures
            valid_caps(self@),
            v@ == sorted_keys(self@),
    {
        proof {
            use_type_invariant(self);
        }
        let mut v: Vec<u8> = Vec::new();
        let mut b: u8 = 0;
        while b <= MAX_BADGES
            invariant
                b <= MAX_BADGES + 1,
                v@ == keys_below(self@, b as nat),
            decreases MAX_BADGES + 1 - b,
        {
            if self.caps.contains_key(&b) {
                v.push(b);
            }
            b += 1;
        }
        v
    }

}

impl Clone for CapTable {
    fn clone(&self) -> (c: Self)
        ensures
            c@ == self@,
    {
        proof {
            use_type_invariant(self);
        }
        CapTable { caps: self.caps.clone() }
    }
}

/// Keys of `m` below `n`, ascending.
pub open spec fn keys_below(m: Map<u8, u8>, n: nat) -> Seq<u8>
    decreases n,
{
    if n == 0 {
        seq![]
    } else if m.contains_key((n - 1) as u8) {
        keys_below(m, (n - 1) as nat).push((n - 1) as u8)
    } else {
        keys_below(m, (n - 1) as nat)
    }
}

/// The badge counts that a table defines, ascending (tables only define `0..=8`).
pub open spec fn sorted_keys(m: Map<u8, u8>) -> Seq<u8> {
    keys_below(m, MAX_BADGES as nat + 1)
}

proof fn lemma_keys_below(m: Map<u8, u8>, n: nat)
    requires
        n <= 256,
    ensures
        forall|i: int, j: int|
            0 <= i < j < keys_below(m, n).len() ==> keys_below(m, n)[i] < keys_below(m, n)[j],
        forall|i: int| 0 <= i < keys_below(m, n).len() ==> keys_below(m, n)[i] < n,
        forall|b: u8| b < n ==> (keys_below(m, n).contains(b) <==> m.contains_key(b)),
    decreases n,
{
    if n > 0 {
        lemma_keys_below(m, (n - 1) as nat);
        let prev = keys_below(m, (n - 1) as nat);
        let cur = keys_below(m, n);
        let k = (n - 1) as u8;
        if m.contains_key(k) {
            assert(cur == prev.push(k));
            assert forall|i: int, j: int| 0 <= i < j < cur.len() implies cur[i] < cur[j] by {
                assert(cur[i] == prev[i]);
                if j < prev.len() {
                    assert(cur[j] == prev[j]);
                }
            }
            assert forall|i: int| 0 <= i < cur.len() implies cur[i] < n by {
                if i < prev.len() {
                    assert(cur[i] == prev[i]);
                }
            }
            assert forall|b: u8| b < n implies (cur.contains(b) <==> m.contains_key(b)) by {
                if b < n - 1 {
                    if prev.contains(b) {
                        let i = choose|i: int| 0 <= i < prev.len() && prev[i] == b;
                        assert(cur[i] == b);
                    }
                    if cur.contains(b) {
                        let i = choose|i: int| 0 <= i < cur.len() && cur[i] == b;
                        if i < prev.len() {
                            assert(prev[i] == b);
                        }
                    }
                } else {
                    assert(cur[cur.len() - 1] == b);
                }
            }
        } else {
            assert(cur == prev);
            assert forall|b: u8| b < n implies (cur.contains(b) <==> m.contains_key(b)) by {
                if b == n - 1 && cur.contains(b) {
                    let i = choose|i: int| 0 <= i < cur.len() && cur[i] == b;
                    assert(prev[i] < n - 1);
                }
            }
        }
    }
}

/// The badge counts listed for a valid table are strictly ascending and are
/// exactly the counts it defines.
pub proof fn lemma_sorted_keys(m: Map<u8, u8>)
    requires
        valid_caps(m),
    ensures
        forall|i: int, j: int|
            0 <= i < j < sorted_keys(m).len() ==> sorted_keys(m)[i] < sorted_keys(m)[j],
        forall|b: u8| sorted_keys(m).contains(b) <==> m.contains_key(b),
{
    lemma_keys_below(m, MAX_BADGES as nat + 1);
    assert forall|b: u8| sorted_keys(m).contains(b) <==> m.contains_key(b) by {
        if b > MAX_BADGES {
            if sorted_keys(m).contains(b) {
                let i = choose|i: int| 0 <= i < sorted_keys(m).len() && sorted_keys(m)[i] == b;
            }
        }
    }
}

/// `[a, b, c]`, the debug form of a list of numbers.
pub open spec fn list_text(s: Seq<u8>) -> Seq<char> {
    "["@ + list_items(s) + "]"@
}

/// The items of a list, separated by `", "`.
pub open spec fn list_items(s: Seq<u8>) -> Seq<char>
    decreases s.len(),
{
    if s.len() == 0 {
        seq![]
    } else if s.len() == 1 {
        decimal(s[0] as nat)
    } else {
        list_items(s.drop_last()) + ", "@ + decimal(s.last() as nat)
    }
}

/// The message of a cap error.
pub open spec fn cap_error_message(e: CapErrorView) -> Seq<char> {
    match e {
        CapErrorView::MissingEquals { line, text } => "Zeile "@ + decimal(line)
            + " ungültig (kein '='): "@ + text,
        CapErrorView::BadgesUnparsable { line, text } => "Zeile "@ + decimal(line)
            + ": Orden-Anzahl nicht parsebar: "@ + text,
        CapErrorView::CapUnparsable { line, text } => "Zeile "@ + decimal(line)
            + ": Level-Cap nicht parsebar: "@ + text,
        CapErrorView::TooManyBadges { line, badges } => "Zeile "@ + decimal(line)
            + ": Orden-Anzahl "@ + decimal(badges as nat) + " > 8 (ORAS hat nur 8 Hoenn-Orden)"@,
        CapErrorView::CapOutOfRange { line, cap } => "Zeile "@ + decimal(line) + ": Level-Cap "@
            + decimal(cap as nat) + " außerhalb 1..=100"@,
        CapErrorView::DuplicateBadges { line, badges } => "Zeile "@ + decimal(line)
            + ": Orden-Anzahl "@ + decimal(badges as nat) + " doppelt definiert"@,
        CapErrorView::MissingZeroBadges => "caps.txt muss mindestens '0=<cap>' enthalten"@,
        CapErrorView::NoCap { badges, defined } => "Kein Cap für "@ + decimal(badges as nat)
            + " Orden in caps.txt definiert. Definierte Stufen: "@ + list_text(defined),
    }
}

impl CapError {
    /// The human-readable message of the error.
    pub fn to_string(&self) -> (s: String)
        ensures
            s@ == cap_error_message(self@),
    {
        let mut s = String::new();
        match self {
            CapError::MissingEquals { line, text } => {
                push_str(&mut s, "Zeile ");
                push_decimal(&mut s, *line as u64);
                push_str(&mut s, " ungültig (kein '='): ");
                push_str(&mut s, text.as_str());
            },
            CapError::BadgesUnparsable { line, text } => {
                push_str(&mut s, "Zeile ");
                push_decimal(&mut s, *line as u64);
                push_str(&mut s, ": Orden-Anzahl nicht parsebar: ");
                push_str(&mut s, text.as_str());
            },
            CapError::CapUnparsable { line, text } => {
                push_str(&mut s, "Zeile ");
                push_decimal(&mut s, *line as u64);
                push_str(&mut s, ": Level-Cap nicht parsebar: ");
                push_str(&mut s, text.as_str());
            },
            CapError::TooManyBadges { line, badges } => {
                push_str(&mut s, "Zeile ");
                push_decimal(&mut s, *line as u64);
                push_str(&mut s, ": Orden-Anzahl ");
                push_decimal(&mut s, *badges as u64);
                push_str(&mut s, " > 8 (ORAS hat nur 8 Hoenn-Orden)");
            },
            CapError::CapOutOfRange { line, cap } => {
                push_str(&mut s, "Zeile ");
                push_decimal(&mut s, *line as u64);
                push_str(&mut s, ": Level-Cap ");
                push_decimal(&mut s, *cap as u64);
                push_str(&mut s, " außerhalb 1..=100");
            },
            CapError::DuplicateBadges { line, badges } => {
                push_str(&mut s, "Zeile ");
                push_decimal(&mut s, *line as u64);
                push_str(&mut s, ": Orden-Anzahl ");
                push_decimal(&mut s, *badges as u64);
                push_str(&mut s, " doppelt definiert");
            },
            CapError::MissingZeroBadges => {
                push_str(&mut s, "caps.txt muss mindestens '0=<cap>' enthalten");
            },
            CapError::NoCap { badges, defined } => {
                push_str(&mut s, "Kein Cap für ");
                push_decimal(&mut s, *badges as u64);
                push_str(&mut s, " Orden in caps.txt definiert. Definierte Stufen: ");
                push_str(&mut s, "[");
                let mut i: usize = 0;
                while i < defined.len()
                    invariant
                        i <= defined.len(),
                        s@ == "Kein Cap für "@ + decimal(*badges as nat)
                            + " Orden in caps.txt definiert. Definierte Stufen: "@ + "["@
                            + list_items(defined@.subrange(0, i as int)),
                    decreases defined.len() - i,
                {
                    if i > 0 {
                        push_str(&mut s, ", ");
                    }
                    push_decimal(&mut s, defined[i] as u64);
                    assert(defined@.subrange(0, i + 1).drop_last() =~= defined@.subrange(0, i as int));
                    i += 1;
                }
                assert(defined@.subrange(0, defined.len() as int) =~= defined@);
                push_str(&mut s, "]");
            },
        }
        s
    }
}

} // verus!
