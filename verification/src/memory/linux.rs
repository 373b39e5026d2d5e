//! Entries of a Linux `/proc/<pid>/maps` listing.
use vstd::prelude::*;

use crate::memory::windows::Region;
use crate::text::{
    chars_of, find_char, join_spaces, parse_hex_range, parse_hex_usize, push_char,
    string_from_range, span_until, token_ranges, tokens,
};

verus! {

/// One mapping of a process: address range, permission string and path
/// (empty for anonymous mappings).
#[derive(Debug, Clone)]
pub struct MapEntry {
    pub start: usize,
    pub end: usize,
    pub perms: String,
    pub pathname: String,
}

/// What a maps line holds: its words are the range `start-end` (hexadecimal),
/// the permissions, offset, device and inode, then the path, whose words are
/// joined with single spaces. `None` when a field is missing or a bound is
/// not a hexadecimal `usize`.
pub open spec fn spec_parse_map_line(line: Seq<char>) -> Option<(usize, usize, Seq<char>, Seq<char>)> {
    let t = tokens(line);
    if t.len() < 5 {
        None
    } else {
        let range = t[0];
        let d = span_until(range, '-') as int;
        if d >= range.len() {
            None
        } else {
            match (
                parse_hex_usize(range.subrange(0, d)),
                parse_hex_usize(range.subrange(d + 1, range.len() as int)),
            ) {
                (Some(start), Some(end)) => Some(
                    (start, end, t[1], join_spaces(t.subrange(5, t.len() as int))),
                ),
                _ => None,
            }
        }
    }
}

/// Whether a mapping is anonymous (no path) and both readable and writable.
pub open spec fn spec_is_anonymous_rw(m: MapEntry) -> bool {
    m.pathname@.len() == 0 && m.perms@.contains('r') && m.perms@.contains('w')
}

fn contains_char(s: &String, c: char) -> (b: bool)
    ensures
        b == s@.contains(c),
{
    let v = chars_of(s.as_str());
    let mut i: usize = 0;
    while i < v.len()
        invariant
            v@ == s@,
            i <= v.len(),
            forall|j: int| 0 <= j < i ==> v@[j] != c,
        decreases v.len() - i,
    {
        if v[i] == c {
            return true;
        }
        i += 1;
    }
    false
}

impl MapEntry {
    /// Parses one line of `/proc/<pid>/maps`, e.g.
    /// `7f1234567000-7f1234600000 rw-p 00000000 00:00 0  [heap]`.
    pub fn parse(line: &str) -> (r: Option<MapEntry>)
        ensures
            match spec_parse_map_line(line@) {
                None => r is None,
                Some((start, end, perms, pathname)) => r matches Some(m) && m.start == start
                    && m.end == end && m.perms@ == perms && m.pathname@ == pathname,
            },
    {
        let s = chars_of(line);
        let toks = token_ranges(&s);
        if toks.len() < 5 {
            return None;
        }
        let (ra, rb) = toks[0];
        let dash = find_char(&s, ra, rb, '-');
        let ghost range = s@.subrange(ra as int, rb as int);
        if dash == rb {
            return None;
        }
        assert(range.subrange(0, dash - ra) =~= s@.subrange(ra as int, dash as int));
        assert(range.subrange(dash - ra + 1, range.len() as int) =~= s@.subrange(
            dash + 1,
            rb as int,
        ));
        let start = match parse_hex_range(&s, ra, dash) {
            Some(v) => v,
            None => {
                return None;
            },
        };
        let end = match parse_hex_range(&s, dash + 1, rb) {
            Some(v) => v,
            None => {
                return None;
            },
        };
        let (pa, pb) = toks[1];
        let perms = string_from_range(&s, pa, pb);
        let mut pathname = String::new();
        let mut k: usize = 5;
        let ghost t = tokens(s@);
        assert(t.subrange(5, 5) =~= Seq::<Seq<char>>::empty());
        while k < toks.len()
            invariant
                5 <= k <= toks.len(),
                toks@.len() == t.len(),
                t == tokens(s@),
                forall|i: int|
                    #![trigger toks@[i]]
                    0 <= i < toks@.len() ==> {
                        &&& toks@[i].0 <= toks@[i].1
                        &&& toks@[i].1 <= s.len()
                        &&& s@.subrange(toks@[i].0 as int, toks@[i].1 as int) == t[i]
                    },
                pathname@ == join_spaces(t.subrange(5, k as int)),
            decreases toks.len() - k,
        {
            let (wa, wb) = toks[k];
            if k > 5 {
                push_char(&mut pathname, ' ');
            }
            let word = string_from_range(&s, wa, wb);
            crate::text::push_str(&mut pathname, word.as_str());
            assert(t.subrange(5, k + 1).drop_last() =~= t.subrange(5, k as int));
            k += 1;
        }
        assert(t.subrange(5, t.len() as int) =~= t.subrange(5, k as int));
        Some(MapEntry { start, end, perms, pathname })
    }

    /// Size of the mapping in bytes.
    pub fn size(&self) -> (n: usize)
        requires
            self.start <= self.end,
        ensures
            n == self.end - self.start,
    {
        self.end - self.start
    }

    /// Whether the mapping is anonymous (no path) and readable and writable.
    pub fn is_anonymous_rw(&self) -> (b: bool)
        ensures
            b == spec_is_anonymous_rw(*self),
    {
        self.pathname.as_str().is_empty() && contains_char(&self.perms, 'r') && contains_char(
            &self.perms,
            'w',
        )
    }
}

/// The anonymous read-write mappings, as regions (start and size).
pub open spec fn anonymous_rw_regions(ms: Seq<MapEntry>) -> Seq<Region>
    decreases ms.len(),
{
    if ms.len() == 0 {
        seq![]
    } else if spec_is_anonymous_rw(ms.last()) {
        anonymous_rw_regions(ms.drop_last()).push(
            Region { base: ms.last().start, size: (ms.last().end - ms.last().start) as usize },
        )
    } else {
        anonymous_rw_regions(ms.drop_last())
    }
}

/// The FCRAM candidates among a process's mappings: its anonymous
/// read-write mappings, in order.
pub fn fcram_candidates(maps: &Vec<MapEntry>) -> (r: Vec<Region>)
    requires
        forall|i: int|
            0 <= i < maps.len() && spec_is_anonymous_rw(#[trigger] maps@[i]) ==> maps@[i].start
                <= maps@[i].end,
    ensures
        r@ == anonymous_rw_regions(maps@),
{
    let mut r: Vec<Region> = Vec::new();
    let mut i: usize = 0;
    while i < maps.len()
        invariant
            i <= maps.len(),
            forall|j: int|
                0 <= j < maps.len() && spec_is_anonymous_rw(#[trigger] maps@[j]) ==> maps@[j].start
                    <= maps@[j].end,
            r@ == anonymous_rw_regions(maps@.subrange(0, i as int)),
        decreases maps.len() - i,
    {
        let m = &maps[i];
        assert(maps@.subrange(0, i + 1).drop_last() =~= maps@.subrange(0, i as int));
        if m.is_anonymous_rw() {
            r.push(Region { base: m.start, size: m.size() });
        }
        i += 1;
    }
    assert(maps@.subrange(0, maps.len() as int) =~= maps@);
    r
}

} // verus!
