//! Repair of subtitle documents in the Advanced SubStation format.
//!
//! Three defects are mended in one pass: the rendering directive that scales
//! borders and shadows is added to the script-info section, dialogue cues
//! that run past the end of the video are clipped to it, and dialogue lines
//! are put in chronological order while every other line keeps its place.
use crate::timecode::{clock_at, clock_bytes, digit_run, is_digit, parse_clock, push_clock};
use vstd::prelude::*;

verus! {

/// White space that may follow the dialogue tag.
pub open spec fn is_space(b: u8) -> bool {
    b == 32 || b == 9 || b == 13 || b == 11 || b == 12
}

/// `Dialogue:`
pub open spec fn dialogue_tag() -> Seq<u8> {
    seq![68u8, 105, 97, 108, 111, 103, 117, 101, 58]
}

/// `[Script Info]`
pub open spec fn header_text() -> Seq<u8> {
    seq![91u8, 83, 99, 114, 105, 112, 116, 32, 73, 110, 102, 111, 93]
}

/// `ScaledBorderAndShadow: yes`
pub open spec fn directive_text() -> Seq<u8> {
    seq![
        83u8, 99, 97, 108, 101, 100, 66, 111, 114, 100, 101, 114, 65, 110, 100, 83, 104, 97, 100,
        111, 119, 58, 32, 121, 101, 115,
    ]
}

/// Where the fields of a dialogue line lie: the layer ends at `layer_end`
/// (a comma), then come the start and end times, then the rest of the line
/// from `rest` on (which starts with a comma).
pub struct Cue {
    pub layer_end: int,
    pub start: u64,
    pub end: u64,
    pub rest: int,
}

/// The dialogue cue on a line: `Dialogue:`, one space, the layer digits,
/// then `,start,end,`.
pub open spec fn cue_of(l: Seq<u8>) -> Option<Cue> {
    if l.len() >= 11 && l.subrange(0, 9) == dialogue_tag() && is_space(l[9]) {
        let le = 10 + digit_run(l, 10) as int;
        if le > 10 && le < l.len() && l[le] == 44 {
            match clock_at(l, le + 1) {
                Some((s, start_end)) => if start_end < l.len() && l[start_end] == 44 {
                    match clock_at(l, start_end + 1) {
                        Some((e, end_end)) => if end_end < l.len() && l[end_end] == 44 {
                            Some(Cue { layer_end: le, start: s, end: e, rest: end_end })
                        } else {
                            None
                        },
                        None => None,
                    }
                } else {
                    None
                },
                None => None,
            }
        } else {
            None
        }
    } else {
        None
    }
}

pub open spec fn is_cue(l: Seq<u8>) -> bool {
    cue_of(l) is Some
}

/// A cue line with its times replaced and every other byte kept.
pub open spec fn rewrite(l: Seq<u8>, c: Cue, start: u64, end: u64) -> Seq<u8> {
    l.subrange(0, c.layer_end) + seq![44u8] + clock_bytes(start as nat) + seq![44u8] + clock_bytes(
        end as nat,
    ) + l.subrange(c.rest, l.len() as int)
}

/// A cue that runs past `max` is clipped: its start to `max` if it lies
/// beyond, its end to `max`. Every other line is kept.
pub open spec fn clip_line(l: Seq<u8>, max: u64) -> Seq<u8> {
    match cue_of(l) {
        Some(c) => if c.start > max || c.end > max {
            rewrite(
                l,
                c,
                if c.start > max {
                    max
                } else {
                    c.start
                },
                max,
            )
        } else {
            l
        },
        None => l,
    }
}

/// The first newline at or after `i`, or the length.
pub open spec fn newline_from(d: Seq<u8>, i: int) -> int
    decreases d.len() - i,
{
    if i >= d.len() || i < 0 {
        d.len() as int
    } else if d[i] == 10 {
        i
    } else {
        newline_from(d, i + 1)
    }
}

/// The lines of `d[i..]`, split at each newline.
pub open spec fn split_from(d: Seq<u8>, i: int) -> Seq<Seq<u8>>
    decreases d.len() - i,
{
    let p = newline_from(d, i);
    if 0 <= i <= p && p < d.len() {
        seq![d.subrange(i, p)] + split_from(d, p + 1)
    } else {
        seq![d.subrange(i, d.len() as int)]
    }
}

pub open spec fn split_lines(d: Seq<u8>) -> Seq<Seq<u8>> {
    split_from(d, 0)
}

/// The lines joined with newlines.
pub open spec fn join_lines(ls: Seq<Seq<u8>>) -> Seq<u8>
    decreases ls.len(),
{
    if ls.len() <= 1 {
        if ls.len() == 1 {
            ls[0]
        } else {
            Seq::empty()
        }
    } else {
        join_lines(ls.drop_last()) + seq![10u8] + ls.last()
    }
}

/// Start time and position of each cue among the first `n` lines.
pub open spec fn entries_upto(ls: Seq<Seq<u8>>, n: int) -> Seq<(u64, usize)>
    decreases n,
{
    if n <= 0 {
        Seq::empty()
    } else {
        entries_upto(ls, n - 1) + if is_cue(ls[n - 1]) {
            seq![(cue_of(ls[n - 1])->0.start, (n - 1) as usize)]
        } else {
            Seq::empty()
        }
    }
}

/// The number of cue lines before position `i`.
pub open spec fn cues_before(ls: Seq<Seq<u8>>, i: int) -> nat {
    entries_upto(ls, i).len()
}

/// `x` inserted into `s` after every entry whose start is not later.
pub open spec fn insert_sorted(s: Seq<(u64, usize)>, x: (u64, usize)) -> Seq<(u64, usize)>
    decreases s.len(),
{
    if s.len() == 0 {
        seq![x]
    } else if s.last().0 <= x.0 {
        s.push(x)
    } else {
        insert_sorted(s.drop_last(), x).push(s.last())
    }
}

/// A stable sort by start time.
pub open spec fn sort_entries(s: Seq<(u64, usize)>) -> Seq<(u64, usize)>
    decreases s.len(),
{
    if s.len() == 0 {
        s
    } else {
        insert_sorted(sort_entries(s.drop_last()), s.last())
    }
}

/// Cue lines take the places of the cue lines in chronological order;
/// every other line stays where it is.
pub open spec fn reorder(ls: Seq<Seq<u8>>) -> Seq<Seq<u8>> {
    let sorted = sort_entries(entries_upto(ls, ls.len() as int));
    Seq::new(
        ls.len(),
        |i: int|
            if is_cue(ls[i]) {
                ls[sorted[cues_before(ls, i) as int].1 as int]
            } else {
                ls[i]
            },
    )
}

/// ASCII white space, as trimmed from line ends.
pub open spec fn is_blank(b: u8) -> bool {
    b == 32 || b == 9 || b == 10 || b == 13 || b == 11 || b == 12
}

/// The first position at or after `i` that is not white space.
pub open spec fn lead(l: Seq<u8>, i: int) -> int
    decreases l.len() - i,
{
    if 0 <= i < l.len() && is_blank(l[i]) {
        lead(l, i + 1)
    } else {
        i
    }
}

/// The end of `l[lo..j]` without its trailing white space.
pub open spec fn tail(l: Seq<u8>, lo: int, j: int) -> int
    decreases j - lo,
{
    if lo < j <= l.len() && is_blank(l[j - 1]) {
        tail(l, lo, j - 1)
    } else {
        j
    }
}

/// `l` without white space at either end.
pub open spec fn trimmed(l: Seq<u8>) -> Seq<u8> {
    let a = lead(l, 0);
    l.subrange(a, tail(l, a, l.len() as int))
}

pub open spec fn is_header(l: Seq<u8>) -> bool {
    trimmed(l) == header_text()
}

pub open spec fn is_directive(l: Seq<u8>) -> bool {
    trimmed(l) == directive_text()
}

/// The position of the first script-info header at or after `i`.
pub open spec fn header_from(ls: Seq<Seq<u8>>, i: int) -> Option<int>
    decreases ls.len() - i,
{
    if i < 0 || i >= ls.len() {
        None
    } else if is_header(ls[i]) {
        Some(i)
    } else {
        header_from(ls, i + 1)
    }
}

pub open spec fn first_header(ls: Seq<Seq<u8>>) -> Option<int> {
    header_from(ls, 0)
}

pub open spec fn has_directive(ls: Seq<Seq<u8>>) -> bool {
    exists|i: int| 0 <= i < ls.len() && #[trigger] is_directive(ls[i])
}

/// The directive goes right after the first header, unless the document
/// already has it.
pub open spec fn insert_directive(ls: Seq<Seq<u8>>) -> Seq<Seq<u8>> {
    match first_header(ls) {
        Some(h) => if has_directive(ls) {
            ls
        } else {
            ls.subrange(0, h + 1) + seq![directive_text()] + ls.subrange(h + 1, ls.len() as int)
        },
        None => ls,
    }
}

/// The lines of a repaired document.
pub open spec fn repaired_lines(d: Seq<u8>, max: u64) -> Seq<Seq<u8>> {
    let lines = split_lines(d);
    insert_directive(reorder(lines.map_values(|l: Seq<u8>| clip_line(l, max))))
}

/// The repaired document.
pub open spec fn repaired(d: Seq<u8>, max: u64) -> Seq<u8> {
    join_lines(repaired_lines(d, max))
}

pub open spec fn lines_view(v: Seq<Vec<u8>>) -> Seq<Seq<u8>> {
    v.map_values(|l: Vec<u8>| l@)
}

fn copy_range(d: &[u8], a: usize, b: usize) -> (r: Vec<u8>)
    requires
        a <= b <= d@.len(),
    ensures
        r@ == d@.subrange(a as int, b as int),
{
    let mut r: Vec<u8> = Vec::new();
    let mut i = a;
    while i < b
        invariant
            a <= i <= b <= d@.len(),
            r@ == d@.subrange(a as int, i as int),
        decreases b - i,
    {
        r.push(d[i]);
        assert(r@ =~= d@.subrange(a as int, i + 1));
        i = i + 1;
    }
    r
}

fn push_line(out: &mut Vec<Vec<u8>>, l: Vec<u8>)
    ensures
        lines_view(final(out)@) == lines_view(old(out)@).push(l@),
{
    out.push(l);
    assert(lines_view(out@) =~= lines_view(old(out)@).push(l@));
}

pub proof fn lemma_newline_skip(d: Seq<u8>, a: int, i: int)
    requires
        0 <= a <= i <= d.len(),
        forall|k: int| a <= k < i ==> d[k] != 10,
    ensures
        newline_from(d, a) == newline_from(d, i),
    decreases i - a,
{
    if a < i {
        lemma_newline_skip(d, a + 1, i);
    }
}

/// Splits a document into its lines at each newline.
pub fn split_document(d: &[u8]) -> (r: Vec<Vec<u8>>)
    ensures
        lines_view(r@) == split_lines(d@),
{
    let mut out: Vec<Vec<u8>> = Vec::new();
    let mut start: usize = 0;
    let mut i: usize = 0;
    assert(lines_view(out@) =~= Seq::<Seq<u8>>::empty());
    while i < d.len()
        invariant
            start <= i <= d@.len(),
            forall|k: int| start <= k < i ==> d@[k] != 10,
            split_lines(d@) == lines_view(out@) + split_from(d@, start as int),
        decreases d@.len() - i,
    {
        if d[i] == 10 {
            proof {
                lemma_newline_skip(d@, start as int, i as int);
            }
            let ghost before = lines_view(out@);
            push_line(&mut out, copy_range(d, start, i));
            assert(before + split_from(d@, start as int) =~= lines_view(out@) + split_from(
                d@,
                i + 1,
            ));
            start = i + 1;
        }
        i = i + 1;
    }
    proof {
        lemma_newline_skip(d@, start as int, i as int);
    }
    let ghost before = lines_view(out@);
    push_line(&mut out, copy_range(d, start, d.len()));
    assert(before + split_from(d@, start as int) =~= lines_view(out@));
    out
}

/// Joins lines with newlines.
pub fn join_document(ls: &Vec<Vec<u8>>) -> (r: Vec<u8>)
    ensures
        r@ == join_lines(lines_view(ls@)),
{
    let mut out: Vec<u8> = Vec::new();
    let mut i: usize = 0;
    assert(lines_view(ls@).subrange(0, 0) =~= Seq::<Seq<u8>>::empty());
    while i < ls.len()
        invariant
            i <= ls@.len(),
            out@ == join_lines(lines_view(ls@).subrange(0, i as int)),
        decreases ls@.len() - i,
    {
        let ghost v = lines_view(ls@);
        if i > 0 {
            out.push(10);
        }
        let l = &ls[i];
        let mut j: usize = 0;
        let ghost mid = out@;
        while j < l.len()
            invariant
                j <= l@.len(),
                out@ == mid + l@.subrange(0, j as int),
            decreases l@.len() - j,
        {
            out.push(l[j]);
            assert(out@ =~= mid + l@.subrange(0, j + 1));
            j = j + 1;
        }
        proof {
            assert(l@.subrange(0, j as int) =~= l@);
            let p = v.subrange(0, i + 1);
            assert(p.drop_last() =~= v.subrange(0, i as int));
            if i == 0 {
                assert(out@ =~= join_lines(p));
            } else {
                assert(out@ =~= join_lines(p));
            }
        }
        i = i + 1;
    }
    assert(lines_view(ls@).subrange(0, i as int) =~= lines_view(ls@));
    out
}

fn range_is_tag(l: &[u8], a: usize, b: usize) -> (r: bool)
    requires
        a <= b <= l@.len(),
    ensures
        r == (l@.subrange(a as int, b as int) == dialogue_tag()),
{
    if b - a != 9 {
        assert(l@.subrange(a as int, b as int).len() != dialogue_tag().len());
        return false;
    }
    let r = l[a + 0] == 68 && l[a + 1] == 105 && l[a + 2] == 97 && l[a + 3] == 108 && l[a + 4] == 111 && l[a + 5] == 103 && l[a + 6] == 117 && l[a + 7] == 101 && l[a + 8] == 58;
    if r {
        assert(l@.subrange(a as int, b as int) =~= dialogue_tag());
    } else {
        assert(l@.subrange(a as int, b as int) != dialogue_tag()) by {
            if l@.subrange(a as int, b as int) == dialogue_tag() {
                assert(l@.subrange(a as int, b as int)[0] == dialogue_tag()[0]);
                assert(l@.subrange(a as int, b as int)[1] == dialogue_tag()[1]);
                assert(l@.subrange(a as int, b as int)[2] == dialogue_tag()[2]);
                assert(l@.subrange(a as int, b as int)[3] == dialogue_tag()[3]);
                assert(l@.subrange(a as int, b as int)[4] == dialogue_tag()[4]);
                assert(l@.subrange(a as int, b as int)[5] == dialogue_tag()[5]);
                assert(l@.subrange(a as int, b as int)[6] == dialogue_tag()[6]);
                assert(l@.subrange(a as int, b as int)[7] == dialogue_tag()[7]);
                assert(l@.subrange(a as int, b as int)[8] == dialogue_tag()[8]);
            }
        }
    }
    r
}

fn range_is_header(l: &[u8], a: usize, b: usize) -> (r: bool)
    requires
        a <= b <= l@.len(),
    ensures
        r == (l@.subrange(a as int, b as int) == header_text()),
{
    if b - a != 13 {
        assert(l@.subrange(a as int, b as int).len() != header_text().len());
        return false;
    }
    let r = l[a + 0] == 91 && l[a + 1] == 83 && l[a + 2] == 99 && l[a + 3] == 114 && l[a + 4] == 105 && l[a + 5] == 112 && l[a + 6] == 116 && l[a + 7] == 32 && l[a + 8] == 73 && l[a + 9] == 110 && l[a + 10] == 102 && l[a + 11] == 111 && l[a + 12] == 93;
    if r {
        assert(l@.subrange(a as int, b as int) =~= header_text());
    } else {
        assert(l@.subrange(a as int, b as int) != header_text()) by {
            if l@.subrange(a as int, b as int) == header_text() {
                assert(l@.subrange(a as int, b as int)[0] == header_text()[0]);
                assert(l@.subrange(a as int, b as int)[1] == header_text()[1]);
                assert(l@.subrange(a as int, b as int)[2] == header_text()[2]);
                assert(l@.subrange(a as int, b as int)[3] == header_text()[3]);
                assert(l@.subrange(a as int, b as int)[4] == header_text()[4]);
                assert(l@.subrange(a as int, b as int)[5] == header_text()[5]);
                assert(l@.subrange(a as int, b as int)[6] == header_text()[6]);
                assert(l@.subrange(a as int, b as int)[7] == header_text()[7]);
                assert(l@.subrange(a as int, b as int)[8] == header_text()[8]);
                assert(l@.subrange(a as int, b as int)[9] == header_text()[9]);
                assert(l@.subrange(a as int, b as int)[10] == header_text()[10]);
                assert(l@.subrange(a as int, b as int)[11] == header_text()[11]);
                assert(l@.subrange(a as int, b as int)[12] == header_text()[12]);
            }
        }
    }
    r
}

fn range_is_directive(l: &[u8], a: usize, b: usize) -> (r: bool)
    requires
        a <= b <= l@.len(),
    ensures
        r == (l@.subrange(a as int, b as int) == directive_text()),
{
    if b - a != 26 {
        assert(l@.subrange(a as int, b as int).len() != directive_text().len());
        return false;
    }
    let r = l[a + 0] == 83 && l[a + 1] == 99 && l[a + 2] == 97 && l[a + 3] == 108 && l[a + 4] == 101 && l[a + 5] == 100 && l[a + 6] == 66 && l[a + 7] == 111 && l[a + 8] == 114 && l[a + 9] == 100 && l[a + 10] == 101 && l[a + 11] == 114 && l[a + 12] == 65 && l[a + 13] == 110 && l[a + 14] == 100 && l[a + 15] == 83 && l[a + 16] == 104 && l[a + 17] == 97 && l[a + 18] == 100 && l[a + 19] == 111 && l[a + 20] == 119 && l[a + 21] == 58 && l[a + 22] == 32 && l[a + 23] == 121 && l[a + 24] == 101 && l[a + 25] == 115;
    if r {
        assert(l@.subrange(a as int, b as int) =~= directive_text());
    } else {
        assert(l@.subrange(a as int, b as int) != directive_text()) by {
            if l@.subrange(a as int, b as int) == directive_text() {
                assert(l@.subrange(a as int, b as int)[0] == directive_text()[0]);
                assert(l@.subrange(a as int, b as int)[1] == directive_text()[1]);
                assert(l@.subrange(a as int, b as int)[2] == directive_text()[2]);
                assert(l@.subrange(a as int, b as int)[3] == directive_text()[3]);
                assert(l@.subrange(a as int, b as int)[4] == directive_text()[4]);
                assert(l@.subrange(a as int, b as int)[5] == directive_text()[5]);
                assert(l@.subrange(a as int, b as int)[6] == directive_text()[6]);
                assert(l@.subrange(a as int, b as int)[7] == directive_text()[7]);
                assert(l@.subrange(a as int, b as int)[8] == directive_text()[8]);
                assert(l@.subrange(a as int, b as int)[9] == directive_text()[9]);
                assert(l@.subrange(a as int, b as int)[10] == directive_text()[10]);
                assert(l@.subrange(a as int, b as int)[11] == directive_text()[11]);
                assert(l@.subrange(a as int, b as int)[12] == directive_text()[12]);
                assert(l@.subrange(a as int, b as int)[13] == directive_text()[13]);
                assert(l@.subrange(a as int, b as int)[14] == directive_text()[14]);
                assert(l@.subrange(a as int, b as int)[15] == directive_text()[15]);
                assert(l@.subrange(a as int, b as int)[16] == directive_text()[16]);
                assert(l@.subrange(a as int, b as int)[17] == directive_text()[17]);
                assert(l@.subrange(a as int, b as int)[18] == directive_text()[18]);
                assert(l@.subrange(a as int, b as int)[19] == directive_text()[19]);
                assert(l@.subrange(a as int, b as int)[20] == directive_text()[20]);
                assert(l@.subrange(a as int, b as int)[21] == directive_text()[21]);
                assert(l@.subrange(a as int, b as int)[22] == directive_text()[22]);
                assert(l@.subrange(a as int, b as int)[23] == directive_text()[23]);
                assert(l@.subrange(a as int, b as int)[24] == directive_text()[24]);
                assert(l@.subrange(a as int, b as int)[25] == directive_text()[25]);
            }
        }
    }
    r
}

/// Reads the dialogue cue on a line: layer end, start, end and rest position.
pub fn parse_cue(l: &[u8]) -> (r: Option<(usize, u64, u64, usize)>)
    ensures
        match cue_of(l@) {
            Some(c) => r == Some((c.layer_end as usize, c.start, c.end, c.rest as usize)),
            None => r is None,
        },
{
    if l.len() < 11 || !range_is_tag(l, 0, 9) {
        return None;
    }
    let c9 = l[9];
    if !(c9 == 32 || c9 == 9 || c9 == 13 || c9 == 11 || c9 == 12) {
        return None;
    }
    let mut le: usize = 10;
    while le < l.len() && 48 <= l[le] && l[le] <= 57
        invariant
            10 <= le <= l@.len(),
            digit_run(l@, 10) == (le - 10) + digit_run(l@, le as int),
        decreases l@.len() - le,
    {
        le = le + 1;
    }
    assert(digit_run(l@, le as int) == 0);
    if le == 10 || le >= l.len() || l[le] != 44 {
        return None;
    }
    assert(l@.len() >= 11 && l@.subrange(0, 9) == dialogue_tag() && is_space(l@[9]));
    assert(le == 10 + digit_run(l@, 10));
    match parse_clock(l, le + 1) {
        Some((start, start_end)) => {
            assert(clock_at(l@, le + 1) == Some((start, start_end as int)));
            if start_end >= l.len() || l[start_end] != 44 {
                return None;
            }
            match parse_clock(l, start_end + 1) {
                Some((end, end_end)) => {
                    if end_end >= l.len() || l[end_end] != 44 {
                        return None;
                    }
                    assert(cue_of(l@) == Some(Cue { layer_end: le as int, start, end, rest: end_end as int }));
                    Some((le, start, end, end_end))
                },
                None => None,
            }
        },
        None => None,
    }
}

/// A line with cues running past `max` clipped.
pub fn clip_cue_line(l: Vec<u8>, max: u64) -> (r: Vec<u8>)
    ensures
        r@ == clip_line(l@, max),
{
    match parse_cue(l.as_slice()) {
        Some((le, start, end, rest)) => {
            if start > max || end > max {
                proof {
                    let c = cue_of(l@)->0;
                    crate::timecode::lemma_clock_at_bound(l@, c.layer_end + 1);
                    crate::timecode::lemma_clock_at_bound(l@, (clock_at(l@, c.layer_end + 1)->0).1 + 1);
                }
                let new_start = if start > max {
                    max
                } else {
                    start
                };
                let mut out = copy_range(l.as_slice(), 0, le);
                out.push(44);
                push_clock(&mut out, new_start);
                out.push(44);
                push_clock(&mut out, max);
                let tail = copy_range(l.as_slice(), rest, l.len());
                let ghost o = out@;
                let mut k: usize = 0;
                while k < tail.len()
                    invariant
                        k <= tail@.len(),
                        out@ == o + tail@.subrange(0, k as int),
                    decreases tail@.len() - k,
                {
                    out.push(tail[k]);
                    assert(out@ =~= o + tail@.subrange(0, k + 1));
                    k = k + 1;
                }
                assert(tail@.subrange(0, k as int) =~= tail@);
                let c = Ghost(cue_of(l@)->0);
                assert(out@ =~= rewrite(l@, c@, new_start, max));
                out
            } else {
                l
            }
        },
        None => l,
    }
}

proof fn lemma_insert_at(s: Seq<(u64, usize)>, x: (u64, usize), j: int)
    requires
        0 <= j <= s.len(),
        forall|k: int| j <= k < s.len() ==> s[k].0 > x.0,
        j == 0 || s[j - 1].0 <= x.0,
    ensures
        insert_sorted(s, x) == s.subrange(0, j) + seq![x] + s.subrange(j, s.len() as int),
    decreases s.len(),
{
    if s.len() == 0 {
        assert(s.subrange(0, j) + seq![x] + s.subrange(j, s.len() as int) =~= seq![x]);
    } else if j == s.len() {
        assert(s.subrange(0, j) + seq![x] + s.subrange(j, s.len() as int) =~= s.push(x));
    } else {
        lemma_insert_at(s.drop_last(), x, j);
        assert(s.drop_last().subrange(0, j) + seq![x] + s.drop_last().subrange(j, s.len() - 1)
            =~= (s.subrange(0, j) + seq![x] + s.subrange(j, s.len() as int)).drop_last());
        assert((s.subrange(0, j) + seq![x] + s.subrange(j, s.len() as int)) =~= (s.subrange(0, j)
            + seq![x] + s.subrange(j, s.len() as int)).drop_last().push(s.last()));
    }
}

/// Every entry of the sorted sequence comes from the input.
proof fn lemma_sort_keeps(s: Seq<(u64, usize)>)
    ensures
        sort_entries(s).len() == s.len(),
        forall|k: int| 0 <= k < s.len() ==> s.contains(#[trigger] sort_entries(s)[k]),
    decreases s.len(),
{
    if s.len() > 0 {
        lemma_sort_keeps(s.drop_last());
        lemma_insert_keeps(sort_entries(s.drop_last()), s.last());
        let t = sort_entries(s.drop_last());
        assert forall|k: int| 0 <= k < s.len() implies s.contains(#[trigger] sort_entries(s)[k]) by {
            let y = sort_entries(s)[k];
            if y == s.last() {
                assert(s[s.len() - 1] == y);
            } else {
                let q = choose|q: int| 0 <= q < t.len() && t[q] == y;
                assert(s.drop_last().contains(t[q]));
                let r = choose|r: int| 0 <= r < s.drop_last().len() && s.drop_last()[r] == y;
                assert(s[r] == y);
            }
        }
    }
}

proof fn lemma_insert_keeps(s: Seq<(u64, usize)>, x: (u64, usize))
    ensures
        insert_sorted(s, x).len() == s.len() + 1,
        forall|k: int|
            0 <= k < s.len() + 1 ==> #[trigger] insert_sorted(s, x)[k] == x || s.contains(
                insert_sorted(s, x)[k],
            ),
    decreases s.len(),
{
    if s.len() > 0 && s.last().0 > x.0 {
        lemma_insert_keeps(s.drop_last(), x);
        assert forall|k: int| 0 <= k < s.len() + 1 implies #[trigger] insert_sorted(s, x)[k] == x
            || s.contains(insert_sorted(s, x)[k]) by {
            let y = insert_sorted(s, x)[k];
            if k == s.len() {
                assert(s[s.len() - 1] == y);
            } else if y != x {
                let r = choose|r: int| 0 <= r < s.drop_last().len() && s.drop_last()[r] == y;
                assert(s[r] == y);
            }
        }
    } else if s.len() > 0 {
        assert forall|k: int| 0 <= k < s.len() + 1 implies #[trigger] insert_sorted(s, x)[k] == x
            || s.contains(insert_sorted(s, x)[k]) by {
            if k < s.len() {
                assert(s[k] == insert_sorted(s, x)[k]);
            }
        }
    }
}

/// Sorts cue entries by start time, keeping equal starts in their order.
pub fn sort_by_start(e: &Vec<(u64, usize)>) -> (r: Vec<(u64, usize)>)
    ensures
        r@ == sort_entries(e@),
{
    let mut out: Vec<(u64, usize)> = Vec::new();
    let mut i: usize = 0;
    assert(e@.subrange(0, 0) =~= Seq::<(u64, usize)>::empty());
    while i < e.len()
        invariant
            i <= e@.len(),
            out@ == sort_entries(e@.subrange(0, i as int)),
        decreases e@.len() - i,
    {
        let x = e[i];
        let mut j = out.len();
        while j > 0 && out[j - 1].0 > x.0
            invariant
                j <= out@.len(),
                forall|k: int| j <= k < out@.len() ==> out@[k].0 > x.0,
            decreases j,
        {
            j = j - 1;
        }
        proof {
            lemma_insert_at(out@, x, j as int);
            assert(e@.subrange(0, i + 1).drop_last() =~= e@.subrange(0, i as int));
        }
        out.insert(j, x);
        assert(out@ =~= sort_entries(e@.subrange(0, i + 1)));
        i = i + 1;
    }
    assert(e@.subrange(0, i as int) =~= e@);
    out
}

/// Start time and position of every cue line.
fn cue_entries(ls: &Vec<Vec<u8>>) -> (r: Vec<(u64, usize)>)
    ensures
        r@ == entries_upto(lines_view(ls@), ls@.len() as int),
{
    let mut out: Vec<(u64, usize)> = Vec::new();
    let mut i: usize = 0;
    while i < ls.len()
        invariant
            i <= ls@.len(),
            out@ == entries_upto(lines_view(ls@), i as int),
        decreases ls@.len() - i,
    {
        let ghost before = out@;
        match parse_cue(ls[i].as_slice()) {
            Some((_, start, _, _)) => {
                out.push((start, i));
            },
            None => {},
        }
        assert(out@ =~= entries_upto(lines_view(ls@), i + 1));
        i = i + 1;
    }
    out
}

proof fn lemma_entries_mono(ls: Seq<Seq<u8>>, i: int, n: int)
    requires
        0 <= i <= n,
    ensures
        entries_upto(ls, i).len() <= entries_upto(ls, n).len(),
    decreases n - i,
{
    if i < n {
        lemma_entries_mono(ls, i, n - 1);
    }
}

proof fn lemma_entries_positions(ls: Seq<Seq<u8>>, n: int)
    requires
        0 <= n <= ls.len(),
        ls.len() <= usize::MAX,
    ensures
        forall|k: int| 0 <= k < entries_upto(ls, n).len() ==> (#[trigger] entries_upto(ls, n)[k]).1 < n,
    decreases n,
{
    if n > 0 {
        lemma_entries_positions(ls, n - 1);
        let prev = entries_upto(ls, n - 1);
        let cur = entries_upto(ls, n);
        assert forall|k: int| 0 <= k < cur.len() implies (#[trigger] cur[k]).1 < n by {
            if k < prev.len() {
                assert(cur[k] == prev[k]);
            } else {
                assert(cur[k].1 == (n - 1) as usize);
            }
        }
    }
}

/// Puts the cue lines in chronological order in the cue lines' places.
fn reorder_lines(ls: &Vec<Vec<u8>>) -> (r: Vec<Vec<u8>>)
    ensures
        lines_view(r@) == reorder(lines_view(ls@)),
{
    let ghost v = lines_view(ls@);
    let n = ls.len();
    let entries = cue_entries(ls);
    let ne = entries.len();
    let sorted = sort_by_start(&entries);
    proof {
        lemma_sort_keeps(entries@);
        lemma_entries_positions(v, v.len() as int);
    }
    let mut out: Vec<Vec<u8>> = Vec::new();
    let mut k: usize = 0;
    let mut i: usize = 0;
    while i < ls.len()
        invariant
            v == lines_view(ls@),
            i <= ls@.len(),
            entries@ == entries_upto(v, v.len() as int),
            sorted@ == sort_entries(entries@),
            sorted@.len() == entries@.len(),
            forall|q: int| 0 <= q < entries@.len() ==> entries@.contains(#[trigger] sorted@[q]),
            forall|q: int| 0 <= q < entries@.len() ==> (#[trigger] entries@[q]).1 < v.len(),
            k == cues_before(v, i as int),
            ne == entries@.len(),
            out@.len() == i,
            forall|q: int| 0 <= q < i ==> #[trigger] lines_view(out@)[q] == reorder(v)[q],
        decreases ls@.len() - i,
    {
        let ghost prev = out@;
        if parse_cue(ls[i].as_slice()).is_some() {
            proof {
                lemma_entries_mono(v, i + 1, v.len() as int);
                assert(entries_upto(v, i + 1).len() == k + 1);
                assert(k + 1 <= ne);
                let y = sorted@[k as int];
                let q = choose|q: int| 0 <= q < entries@.len() && entries@[q] == y;
                assert(entries@[q].1 < v.len());
            }
            let p = sorted[k].1;
            out.push(ls[p].clone());
            k = k + 1;
        } else {
            out.push(ls[i].clone());
        }
        proof {
            assert(lines_view(out@)[i as int] == reorder(v)[i as int]);
            assert forall|q: int| 0 <= q < i + 1 implies #[trigger] lines_view(out@)[q] == reorder(v)[q] by {
                if q < i {
                    assert(out@[q] == prev[q]);
                    assert(lines_view(prev)[q] == prev[q]@);
                }
            }
        }
        i = i + 1;
    }
    assert(lines_view(out@) =~= reorder(v));
    out
}

fn line_lead(l: &[u8], i: usize) -> (r: usize)
    requires
        i <= l@.len(),
    ensures
        r == lead(l@, i as int),
        i <= r <= l@.len(),
{
    let mut j = i;
    while j < l.len() && (l[j] == 32 || l[j] == 9 || l[j] == 10 || l[j] == 13 || l[j] == 11
        || l[j] == 12)
        invariant
            i <= j <= l@.len(),
            lead(l@, i as int) == lead(l@, j as int),
        decreases l@.len() - j,
    {
        j = j + 1;
    }
    j
}

fn line_tail(l: &[u8], lo: usize) -> (r: usize)
    requires
        lo <= l@.len(),
    ensures
        r == tail(l@, lo as int, l@.len() as int),
        lo <= r <= l@.len(),
{
    let mut j = l.len();
    while j > lo && (l[j - 1] == 32 || l[j - 1] == 9 || l[j - 1] == 10 || l[j - 1] == 13 || l[j
        - 1] == 11 || l[j - 1] == 12)
        invariant
            lo <= j <= l@.len(),
            tail(l@, lo as int, l@.len() as int) == tail(l@, lo as int, j as int),
        decreases j,
    {
        j = j - 1;
    }
    j
}

fn line_is_header(l: &[u8]) -> (r: bool)
    ensures
        r == is_header(l@),
{
    let a = line_lead(l, 0);
    let b = line_tail(l, a);
    range_is_header(l, a, b)
}

fn line_is_directive(l: &[u8]) -> (r: bool)
    ensures
        r == is_directive(l@),
{
    let a = line_lead(l, 0);
    let b = line_tail(l, a);
    range_is_directive(l, a, b)
}

fn directive_line() -> (r: Vec<u8>)
    ensures
        r@ == directive_text(),
{
    let mut r: Vec<u8> = Vec::new();
    r.push(83); r.push(99); r.push(97); r.push(108); r.push(101); r.push(100); r.push(66);
    r.push(111); r.push(114); r.push(100); r.push(101); r.push(114); r.push(65); r.push(110);
    r.push(100); r.push(83); r.push(104); r.push(97); r.push(100); r.push(111); r.push(119);
    r.push(58); r.push(32); r.push(121); r.push(101); r.push(115);
    assert(r@ =~= directive_text());
    r
}

/// Adds the rendering directive after the first script-info header, unless
/// the document already has it.
fn add_directive(ls: Vec<Vec<u8>>) -> (r: Vec<Vec<u8>>)
    ensures
        lines_view(r@) == insert_directive(lines_view(ls@)),
{
    let ghost v = lines_view(ls@);
    let mut h: usize = 0;
    while h < ls.len() && !line_is_header(ls[h].as_slice())
        invariant
            h <= ls@.len(),
            v == lines_view(ls@),
            header_from(v, 0) == header_from(v, h as int),
        decreases ls@.len() - h,
    {
        h = h + 1;
    }
    if h == ls.len() {
        return ls;
    }
    let mut j: usize = 0;
    while j < ls.len()
        invariant
            j <= ls@.len(),
            v == lines_view(ls@),
            forall|q: int| 0 <= q < j ==> !#[trigger] is_directive(v[q]),
        decreases ls@.len() - j,
    {
        if line_is_directive(ls[j].as_slice()) {
            assert(is_directive(v[j as int]));
            return ls;
        }
        j = j + 1;
    }
    let mut out: Vec<Vec<u8>> = Vec::new();
    let mut i: usize = 0;
    assert(lines_view(out@) =~= v.subrange(0, 0));
    let n = ls.len();
    while i <= h
        invariant
            n == ls@.len(),
            h < ls@.len(),
            i <= h + 1,
            v == lines_view(ls@),
            lines_view(out@) == v.subrange(0, i as int),
        decreases h + 1 - i,
    {
        push_line(&mut out, ls[i].clone());
        assert(lines_view(out@) =~= v.subrange(0, i + 1));
        i = i + 1;
    }
    push_line(&mut out, directive_line());
    let ghost mid = lines_view(out@);
    while i < ls.len()
        invariant
            h + 1 <= i <= ls@.len(),
            v == lines_view(ls@),
            lines_view(out@) == mid + v.subrange(h + 1, i as int),
        decreases ls@.len() - i,
    {
        push_line(&mut out, ls[i].clone());
        assert(lines_view(out@) =~= mid + v.subrange(h + 1, i + 1));
        i = i + 1;
    }
    assert(lines_view(out@) =~= insert_directive(v));
    out
}

/// Repairs a subtitle document whose video ends at `max_length`
/// (centiseconds): the rendering directive is added, cues running past the
/// end are clipped, and dialogue lines are put in chronological order.
pub fn fix_subtitles(raw: &mut Vec<u8>, max_length: u64)
    ensures
        final(raw)@ == repaired(old(raw)@, max_length),
{
    let lines = split_document(raw.as_slice());
    let ghost v = lines_view(lines@);
    let mut clipped: Vec<Vec<u8>> = Vec::new();
    let mut i: usize = 0;
    while i < lines.len()
        invariant
            i <= lines@.len(),
            v == lines_view(lines@),
            clipped@.len() == i,
            forall|q: int| 0 <= q < i ==> #[trigger] clipped@[q]@ == clip_line(v[q], max_length),
        decreases lines@.len() - i,
    {
        clipped.push(clip_cue_line(lines[i].clone(), max_length));
        i = i + 1;
    }
    assert(lines_view(clipped@) =~= v.map_values(|l: Seq<u8>| clip_line(l, max_length)));
    let ordered = reorder_lines(&clipped);
    let complete = add_directive(ordered);
    *raw = join_document(&complete);
}

proof fn lemma_cue_facts(l: Seq<u8>)
    requires
        is_cue(l),
    ensures
        ({
            let c = cue_of(l)->0;
            &&& 10 < c.layer_end < c.rest < l.len()
            &&& l[c.layer_end] == 44
            &&& l[c.rest] == 44
            &&& c.layer_end == 10 + digit_run(l, 10)
        }),
{
    let c = cue_of(l)->0;
    crate::timecode::lemma_clock_at_bound(l, c.layer_end + 1);
    let start_end = (clock_at(l, c.layer_end + 1)->0).1;
    crate::timecode::lemma_clock_at_bound(l, start_end + 1);
}

/// A cue with its times replaced reads back with the new times and the
/// same layer and tail.
#[verifier::rlimit(100)]
pub proof fn lemma_rewrite_cue(l: Seq<u8>, start: u64, end: u64)
    requires
        is_cue(l),
    ensures
        ({
            let c = cue_of(l)->0;
            let r = rewrite(l, c, start, end);
            &&& is_cue(r)
            &&& cue_of(r)->0.start == start
            &&& cue_of(r)->0.end == end
        }),
{
    let c = cue_of(l)->0;
    lemma_cue_facts(l);
    let le = c.layer_end;
    let a = clock_bytes(start as nat);
    let b = clock_bytes(end as nat);
    let tl = l.subrange(c.rest, l.len() as int);
    let r = rewrite(l, c, start, end);
    let start_end = le + 1 + a.len();
    let end_end = start_end + 1 + b.len();
    assert(r =~= l.subrange(0, le) + seq![44u8] + a + seq![44u8] + b + tl);
    assert(r.len() == end_end + tl.len());
    assert forall|k: int| 0 <= k < le implies #[trigger] r[k] == l[k] by {}
    assert(r[le] == 44);
    assert(r[start_end] == 44);
    assert(r[end_end] == tl[0]);
    assert(r.subrange(0, 9) =~= l.subrange(0, 9));
    crate::timecode::lemma_digit_run_bound(l, 10);
    crate::timecode::lemma_digit_run_exact(r, 10, le);
    assert(r.subrange(le + 1, start_end) =~= a);
    assert(r.subrange(start_end + 1, end_end) =~= b);
    crate::timecode::lemma_clock_round_trip(r, le + 1, start);
    crate::timecode::lemma_clock_round_trip(r, start_end + 1, end);
}

/// A cue that runs past the end is clipped to it: its end becomes the end
/// of the video, its start does too if it lay beyond; a cue within bounds is
/// left as it is.
pub proof fn lemma_clipping(l: Seq<u8>, max: u64)
    requires
        is_cue(l),
    ensures
        ({
            let c = cue_of(l)->0;
            let r = clip_line(l, max);
            &&& c.end > max ==> is_cue(r) && cue_of(r)->0.end == max
            &&& c.end > max ==> cue_of(r)->0.start == if c.start > max {
                max
            } else {
                c.start
            }
            &&& c.start > max ==> is_cue(r) && cue_of(r)->0.start == max && cue_of(r)->0.end == max
            &&& c.start <= max && c.end <= max ==> r == l
        }),
{
    let c = cue_of(l)->0;
    if c.start > max || c.end > max {
        lemma_rewrite_cue(
            l,
            if c.start > max {
                max
            } else {
                c.start
            },
            max,
        );
    }
}

/// Clipping twice is clipping once.
pub proof fn lemma_clip_idempotent(l: Seq<u8>, max: u64)
    ensures
        clip_line(clip_line(l, max), max) == clip_line(l, max),
{
    if is_cue(l) {
        lemma_clipping(l, max);
    }
}

pub open spec fn no_newline(l: Seq<u8>) -> bool {
    forall|k: int| 0 <= k < l.len() ==> l[k] != 10
}

pub open spec fn lines_ok(ls: Seq<Seq<u8>>) -> bool {
    ls.len() >= 1 && forall|i: int| 0 <= i < ls.len() ==> no_newline(#[trigger] ls[i])
}

proof fn lemma_newline_from_facts(d: Seq<u8>, i: int)
    requires
        0 <= i <= d.len(),
    ensures
        i <= newline_from(d, i) <= d.len(),
        forall|k: int| i <= k < newline_from(d, i) ==> d[k] != 10,
        newline_from(d, i) < d.len() ==> d[newline_from(d, i)] == 10,
    decreases d.len() - i,
{
    if i < d.len() && d[i] != 10 {
        lemma_newline_from_facts(d, i + 1);
    }
}

proof fn lemma_split_facts(d: Seq<u8>, i: int)
    requires
        0 <= i <= d.len(),
    ensures
        lines_ok(split_from(d, i)),
    decreases d.len() - i,
{
    lemma_newline_from_facts(d, i);
    let p = newline_from(d, i);
    if p < d.len() {
        lemma_split_facts(d, p + 1);
        let rest = split_from(d, p + 1);
        let all = split_from(d, i);
        assert(all == seq![d.subrange(i, p)] + rest);
        assert forall|j: int| 0 <= j < all.len() implies no_newline(#[trigger] all[j]) by {
            if j > 0 {
                assert(all[j] == rest[j - 1]);
            }
        }
    }
}

proof fn lemma_join_front(ys: Seq<Seq<u8>>)
    requires
        ys.len() >= 2,
    ensures
        join_lines(ys) == ys[0] + seq![10u8] + join_lines(ys.drop_first()),
    decreases ys.len(),
{
    if ys.len() == 2 {
        assert(ys.drop_last() =~= seq![ys[0]]);
        assert(ys.drop_first() =~= seq![ys[1]]);
        assert(join_lines(ys.drop_last()) == ys[0]);
        assert(join_lines(ys.drop_first()) == ys[1]);
    } else {
        let a = ys.drop_last();
        let b = ys.drop_first();
        lemma_join_front(a);
        assert(a.drop_first() =~= b.drop_last());
        assert(a[0] == ys[0]);
        assert(b.last() == ys.last());
        assert(join_lines(b) == join_lines(b.drop_last()) + seq![10u8] + b.last());
        assert(join_lines(ys) == join_lines(a) + seq![10u8] + ys.last());
        assert(join_lines(ys) =~= ys[0] + seq![10u8] + join_lines(ys.drop_first()));
    }
}

proof fn lemma_split_join(d: Seq<u8>, i: int, ys: Seq<Seq<u8>>)
    requires
        0 <= i <= d.len(),
        d.subrange(i, d.len() as int) == join_lines(ys),
        lines_ok(ys),
    ensures
        split_from(d, i) == ys,
    decreases ys.len(),
{
    let y0 = ys[0];
    assert(no_newline(y0));
    lemma_newline_from_facts(d, i);
    if ys.len() == 1 {
        assert(join_lines(ys) == y0);
        assert forall|k: int| i <= k < d.len() implies d[k] != 10 by {
            assert(d[k] == d.subrange(i, d.len() as int)[k - i]);
        }
        lemma_newline_skip(d, i, d.len() as int);
        assert(split_from(d, i) =~= ys);
    } else {
        lemma_join_front(ys);
        let p = i + y0.len();
        let tl = ys.drop_first();
        assert(d.subrange(i, d.len() as int) == y0 + seq![10u8] + join_lines(tl));
        assert forall|k: int| i <= k < p implies d[k] != 10 by {
            assert(d[k] == d.subrange(i, d.len() as int)[k - i]);
        }
        assert(d[p] == d.subrange(i, d.len() as int)[p - i]);
        lemma_newline_skip(d, i, p);
        assert(newline_from(d, p) == p);
        assert(d.subrange(i, p) =~= y0);
        let sub = d.subrange(i, d.len() as int);
        assert forall|k: int| 0 <= k < d.len() - (p + 1) implies #[trigger] d.subrange(p + 1, d.len() as int)[k] == join_lines(tl)[k] by {
            assert(d.subrange(p + 1, d.len() as int)[k] == sub[y0.len() + 1 + k]);
            assert((y0 + seq![10u8] + join_lines(tl))[y0.len() + 1 + k] == join_lines(tl)[k]);
        }
        assert(d.subrange(p + 1, d.len() as int) =~= join_lines(tl));
        assert forall|j: int| 0 <= j < tl.len() implies no_newline(#[trigger] tl[j]) by {
            assert(tl[j] == ys[j + 1]);
        }
        lemma_split_join(d, p + 1, tl);
        assert(split_from(d, i) =~= ys);
    }
}

proof fn lemma_clock_no_newline(v: nat)
    ensures
        no_newline(clock_bytes(v)),
{
    crate::timecode::lemma_dec_bytes(v / 360000);
    let cb = clock_bytes(v);
    let d = crate::timecode::dec_bytes(v / 360000);
    assert(cb =~= d + seq![58u8] + crate::timecode::two_digit_bytes((v / 6000) % 60) + seq![58u8]
        + crate::timecode::two_digit_bytes((v / 100) % 60) + seq![46u8]
        + crate::timecode::two_digit_bytes(v % 100));
    assert forall|k: int| 0 <= k < cb.len() implies cb[k] != 10 by {
        if k < d.len() {
            assert(cb[k] == d[k]);
            assert(is_digit(d[k]));
        }
    }
}

proof fn lemma_clip_no_newline(l: Seq<u8>, max: u64)
    requires
        no_newline(l),
    ensures
        no_newline(clip_line(l, max)),
{
    if is_cue(l) {
        let c = cue_of(l)->0;
        if c.start > max || c.end > max {
            lemma_cue_facts(l);
            let st = if c.start > max {
                max
            } else {
                c.start
            };
            lemma_clock_no_newline(st as nat);
            lemma_clock_no_newline(max as nat);
            let a = clock_bytes(st as nat);
            let b = clock_bytes(max as nat);
            let p = l.subrange(0, c.layer_end);
            let t = l.subrange(c.rest, l.len() as int);
            let r = clip_line(l, max);
            assert(r == p + seq![44u8] + a + seq![44u8] + b + t);
            assert forall|k: int| 0 <= k < r.len() implies r[k] != 10 by {
                if k < p.len() {
                    assert(r[k] == l[k]);
                } else if k == p.len() {
                } else if k < p.len() + 1 + a.len() {
                    assert(r[k] == a[k - p.len() - 1]);
                } else if k == p.len() + 1 + a.len() {
                } else if k < p.len() + 2 + a.len() + b.len() {
                    assert(r[k] == b[k - p.len() - 2 - a.len()]);
                } else {
                    assert(r[k] == t[k - p.len() - 2 - a.len() - b.len()]);
                    assert(t[k - p.len() - 2 - a.len() - b.len()] == l[c.rest + k - p.len() - 2 - a.len() - b.len()]);
                }
            }
        }
    }
}

/// Whether entries are in order of start.
pub open spec fn entries_sorted(e: Seq<(u64, usize)>) -> bool {
    forall|a: int, b: int| 0 <= a < b < e.len() ==> e[a].0 <= e[b].0
}

proof fn lemma_insert_sorted_sorted(s: Seq<(u64, usize)>, x: (u64, usize))
    requires
        entries_sorted(s),
    ensures
        entries_sorted(insert_sorted(s, x)),
        insert_sorted(s, x).len() == s.len() + 1,
        forall|k: int| 0 <= k < s.len() + 1 ==> #[trigger] insert_sorted(s, x)[k] == x || s.contains(insert_sorted(s, x)[k]),
    decreases s.len(),
{
    lemma_insert_keeps(s, x);
    if s.len() > 0 && s.last().0 > x.0 {
        lemma_insert_sorted_sorted(s.drop_last(), x);
        let t = insert_sorted(s.drop_last(), x);
        let r = insert_sorted(s, x);
        assert(r == t.push(s.last()));
        assert forall|a: int, b: int| 0 <= a < b < r.len() implies r[a].0 <= r[b].0 by {
            if b == r.len() - 1 && a < t.len() {
                assert(r[a] == t[a]);
                if t[a] != x {
                    assert(s.drop_last().contains(t[a]));
                    let q = choose|q: int| 0 <= q < s.drop_last().len() && s.drop_last()[q] == t[a];
                    assert(s[q] == t[a]);
                }
            }
        }
    }
}

/// Sorting yields entries in order of start.
proof fn lemma_sort_sorted(s: Seq<(u64, usize)>)
    ensures
        entries_sorted(sort_entries(s)),
    decreases s.len(),
{
    if s.len() > 0 {
        lemma_sort_sorted(s.drop_last());
        lemma_insert_sorted_sorted(sort_entries(s.drop_last()), s.last());
    }
}

/// Sorting entries already in order changes nothing.
proof fn lemma_sort_of_sorted(s: Seq<(u64, usize)>)
    requires
        entries_sorted(s),
    ensures
        sort_entries(s) == s,
    decreases s.len(),
{
    if s.len() > 0 {
        lemma_sort_of_sorted(s.drop_last());
        assert(s.drop_last().push(s.last()) =~= s);
        if s.len() > 1 {
            assert(s.drop_last().last().0 <= s.last().0);
        }
    }
}

/// Every entry names a cue line before `n` and carries its start; positions
/// increase.
proof fn lemma_entries_shape(ls: Seq<Seq<u8>>, n: int)
    requires
        0 <= n <= ls.len(),
        ls.len() <= usize::MAX,
    ensures
        forall|k: int| 0 <= k < entries_upto(ls, n).len() ==> {
            let e = #[trigger] entries_upto(ls, n)[k];
            &&& e.1 < n
            &&& is_cue(ls[e.1 as int])
            &&& e.0 == cue_of(ls[e.1 as int])->0.start
        },
        forall|a: int, b: int| 0 <= a < b < entries_upto(ls, n).len() ==> entries_upto(ls, n)[a].1 < entries_upto(ls, n)[b].1,
    decreases n,
{
    if n > 0 {
        lemma_entries_shape(ls, n - 1);
        let p = entries_upto(ls, n - 1);
        let e = entries_upto(ls, n);
        assert forall|k: int| 0 <= k < e.len() implies {
            let x = #[trigger] e[k];
            &&& x.1 < n
            &&& is_cue(ls[x.1 as int])
            &&& x.0 == cue_of(ls[x.1 as int])->0.start
        } by {
            if k < p.len() {
                assert(e[k] == p[k]);
            }
        }
        assert forall|a: int, b: int| 0 <= a < b < e.len() implies e[a].1 < e[b].1 by {
            if b < p.len() {
                assert(e[a] == p[a] && e[b] == p[b]);
            } else {
                assert(e[a] == p[a]);
            }
        }
    }
}

/// The entries of a longer prefix extend those of a shorter one.
proof fn lemma_entries_prefix(ls: Seq<Seq<u8>>, i: int, n: int)
    requires
        0 <= i <= n,
    ensures
        entries_upto(ls, i).len() <= entries_upto(ls, n).len(),
        forall|k: int| 0 <= k < entries_upto(ls, i).len() ==> #[trigger] entries_upto(ls, n)[k] == entries_upto(ls, i)[k],
    decreases n - i,
{
    if i < n {
        lemma_entries_prefix(ls, i, n - 1);
        assert forall|k: int| 0 <= k < entries_upto(ls, i).len() implies #[trigger] entries_upto(ls, n)[k] == entries_upto(ls, i)[k] by {
            assert(entries_upto(ls, n)[k] == entries_upto(ls, n - 1)[k]);
        }
    }
}

/// The entry of a cue line sits at its rank.
proof fn lemma_entry_at_rank(ls: Seq<Seq<u8>>, i: int, n: int)
    requires
        0 <= i < n <= ls.len(),
        ls.len() <= usize::MAX,
        is_cue(ls[i]),
    ensures
        cues_before(ls, i) < entries_upto(ls, n).len(),
        entries_upto(ls, n)[cues_before(ls, i) as int] == (cue_of(ls[i])->0.start, i as usize),
{
    lemma_entries_prefix(ls, i + 1, n);
    assert(entries_upto(ls, i + 1)[cues_before(ls, i) as int] == (cue_of(ls[i])->0.start, i as usize));
}

/// Whether the cue lines are in order of start.
pub open spec fn starts_sorted(ls: Seq<Seq<u8>>) -> bool {
    forall|i: int, j: int|
        0 <= i < j < ls.len() && is_cue(ls[i]) && is_cue(ls[j]) ==> cue_of(ls[i])->0.start
            <= cue_of(ls[j])->0.start
}

/// Reordering lines whose cues are already in order changes nothing.
proof fn lemma_reorder_identity(ls: Seq<Seq<u8>>)
    requires
        starts_sorted(ls),
        ls.len() <= usize::MAX,
    ensures
        reorder(ls) == ls,
{
    let n = ls.len() as int;
    let e = entries_upto(ls, n);
    lemma_entries_shape(ls, n);
    assert(entries_sorted(e)) by {
        assert forall|a: int, b: int| 0 <= a < b < e.len() implies e[a].0 <= e[b].0 by {
            let x = e[a];
            let y = e[b];
            assert(x.1 < y.1);
        }
    }
    lemma_sort_of_sorted(e);
    assert forall|i: int| 0 <= i < n implies #[trigger] reorder(ls)[i] == ls[i] by {
        if is_cue(ls[i]) {
            lemma_entry_at_rank(ls, i, n);
        }
    }
    assert(reorder(ls) =~= ls);
}

proof fn lemma_cues_before_increase(ls: Seq<Seq<u8>>, i: int, j: int)
    requires
        0 <= i < j <= ls.len(),
        is_cue(ls[i]),
    ensures
        cues_before(ls, i) < cues_before(ls, j),
{
    lemma_entries_prefix(ls, i + 1, j);
}

/// What reordering puts at a cue line's place: the cue line named by the
/// sorted entry of the same rank, whose start that entry carries.
#[verifier::rlimit(100)]
proof fn lemma_reorder_at(ls: Seq<Seq<u8>>, i: int)
    requires
        ls.len() <= usize::MAX,
        0 <= i < ls.len(),
        is_cue(ls[i]),
    ensures
        ({
            let srt = sort_entries(entries_upto(ls, ls.len() as int));
            let x = srt[cues_before(ls, i) as int];
            &&& cues_before(ls, i) < srt.len()
            &&& x.1 < ls.len()
            &&& is_cue(ls[x.1 as int])
            &&& reorder(ls)[i] == ls[x.1 as int]
            &&& cue_of(reorder(ls)[i])->0.start == x.0
        }),
{
    let n = ls.len() as int;
    let e = entries_upto(ls, n);
    let srt = sort_entries(e);
    lemma_entries_shape(ls, n);
    lemma_sort_keeps(e);
    lemma_entry_at_rank(ls, i, n);
    let k = cues_before(ls, i) as int;
    assert(e.contains(srt[k]));
    let q = choose|q: int| 0 <= q < e.len() && e[q] == srt[k];
    assert(e[q] == srt[k]);
}

/// After reordering, the cue lines are in order of start, every cue line
/// stays a cue line, and every line comes from the input.
proof fn lemma_reorder_facts(ls: Seq<Seq<u8>>)
    requires
        ls.len() <= usize::MAX,
    ensures
        starts_sorted(reorder(ls)),
        reorder(ls).len() == ls.len(),
        forall|i: int| 0 <= i < ls.len() ==> (is_cue(#[trigger] reorder(ls)[i]) <==> is_cue(ls[i])),
        forall|i: int| 0 <= i < ls.len() ==> exists|j: int| 0 <= j < ls.len() && #[trigger] reorder(ls)[i] == ls[j],
{
    let n = ls.len() as int;
    let r = reorder(ls);
    assert forall|i: int| 0 <= i < n implies (is_cue(#[trigger] r[i]) <==> is_cue(ls[i])) by {
        if is_cue(ls[i]) {
            lemma_reorder_at(ls, i);
        }
    }
    assert forall|i: int| 0 <= i < n implies exists|j: int| 0 <= j < n && #[trigger] r[i] == ls[j] by {
        if is_cue(ls[i]) {
            lemma_reorder_at(ls, i);
            let x = sort_entries(entries_upto(ls, n))[cues_before(ls, i) as int];
            assert(r[i] == ls[x.1 as int]);
        } else {
            assert(r[i] == ls[i]);
        }
    }
    lemma_sort_sorted(entries_upto(ls, n));
    assert forall|i: int, j: int|
        0 <= i < j < r.len() && is_cue(r[i]) && is_cue(r[j]) implies cue_of(r[i])->0.start
            <= cue_of(r[j])->0.start by {
        lemma_reorder_at(ls, i);
        lemma_reorder_at(ls, j);
        lemma_cues_before_increase(ls, i, j);
    }
}

proof fn lemma_directive_not_cue()
    ensures
        !is_cue(directive_text()),
{
    let d = directive_text();
    if d.len() >= 11 && d.subrange(0, 9) == dialogue_tag() {
        assert(d.subrange(0, 9)[0] == dialogue_tag()[0]);
    }
}

proof fn lemma_directive_is_directive()
    ensures
        is_directive(directive_text()),
        !is_header(directive_text()),
{
    let d = directive_text();
    assert(lead(d, 0) == 0);
    assert(tail(d, 0, d.len() as int) == d.len());
    assert(d.subrange(0, d.len() as int) =~= d);
    assert(trimmed(d) == d);
    assert(d.len() != header_text().len());
}

proof fn lemma_header_from_found(ls: Seq<Seq<u8>>, i: int)
    requires
        header_from(ls, i) is Some,
    ensures
        0 <= i <= header_from(ls, i)->0 < ls.len(),
    decreases ls.len() - i,
{
    if 0 <= i < ls.len() && !is_header(ls[i]) {
        lemma_header_from_found(ls, i + 1);
    }
}

proof fn lemma_header_from_none(ls: Seq<Seq<u8>>, i: int)
    requires
        0 <= i,
        header_from(ls, i) is None,
    ensures
        forall|j: int| i <= j < ls.len() ==> !is_header(#[trigger] ls[j]),
    decreases ls.len() - i,
{
    if i < ls.len() {
        lemma_header_from_none(ls, i + 1);
    }
}

proof fn lemma_header_from_some(ls: Seq<Seq<u8>>, i: int, j: int)
    requires
        0 <= i <= j < ls.len(),
        is_header(ls[j]),
    ensures
        header_from(ls, i) is Some,
    decreases j - i,
{
    if i < j && !is_header(ls[i]) {
        lemma_header_from_some(ls, i + 1, j);
    }
}

/// After the directive has been added, adding it again changes nothing.
proof fn lemma_insert_directive_twice(ls: Seq<Seq<u8>>, ys: Seq<Seq<u8>>)
    requires
        ys == insert_directive(ls),
    ensures
        insert_directive(ys) == ys,
{
    lemma_directive_is_directive();
    match first_header(ls) {
        Some(h) => {
            if !has_directive(ls) {
                lemma_header_from_found(ls, 0);
                assert(ys[h + 1] == directive_text());
                assert(is_directive(ys[h + 1]));
                assert(has_directive(ys));
            }
        },
        None => {
            lemma_header_from_none(ls, 0);
            if first_header(ys) is Some {
                assert(ys == ls);
            }
        },
    }
}

proof fn lemma_split_count(d: Seq<u8>, i: int)
    requires
        0 <= i <= d.len(),
    ensures
        split_from(d, i).len() <= d.len() - i + 1,
    decreases d.len() - i,
{
    lemma_newline_from_facts(d, i);
    let p = newline_from(d, i);
    if p < d.len() {
        lemma_split_count(d, p + 1);
    }
}

/// Inserting a line that is no cue keeps the cue lines in order.
#[verifier::rlimit(100)]
proof fn lemma_insert_keeps_order(rs: Seq<Seq<u8>>, ys: Seq<Seq<u8>>)
    requires
        ys == insert_directive(rs),
        starts_sorted(rs),
    ensures
        starts_sorted(ys),
        ys.len() <= rs.len() + 1,
        forall|i: int| 0 <= i < ys.len() ==> #[trigger] ys[i] == directive_text() || exists|j: int|
            0 <= j < rs.len() && ys[i] == rs[j],
{
    lemma_directive_not_cue();
    match first_header(rs) {
        Some(h) => {
            if !has_directive(rs) {
                lemma_header_from_found(rs, 0);
                let dir = directive_text();
                assert(ys == rs.subrange(0, h + 1) + seq![dir] + rs.subrange(h + 1, rs.len() as int));
                let src = |i: int| if i <= h {
                    i
                } else {
                    i - 1
                };
                assert forall|i: int| 0 <= i < ys.len() && i != h + 1 implies #[trigger] ys[i] == rs[src(i)] by {}
                assert forall|i: int, j: int|
                    0 <= i < j < ys.len() && is_cue(ys[i]) && is_cue(ys[j]) implies cue_of(ys[i])->0.start
                        <= cue_of(ys[j])->0.start by {
                    assert(i != h + 1 && j != h + 1);
                    assert(ys[i] == rs[src(i)] && ys[j] == rs[src(j)]);
                }
                assert forall|i: int| 0 <= i < ys.len() implies #[trigger] ys[i] == directive_text() || exists|j: int|
                    0 <= j < rs.len() && ys[i] == rs[j] by {
                    if i != h + 1 {
                        assert(ys[i] == rs[src(i)]);
                    }
                }
            } else {
                assert forall|i: int| 0 <= i < ys.len() implies #[trigger] ys[i] == directive_text() || exists|j: int|
                    0 <= j < rs.len() && ys[i] == rs[j] by {
                    assert(ys[i] == rs[i]);
                }
            }
        },
        None => {
            assert forall|i: int| 0 <= i < ys.len() implies #[trigger] ys[i] == directive_text() || exists|j: int|
                0 <= j < rs.len() && ys[i] == rs[j] by {
                assert(ys[i] == rs[i]);
            }
        },
    }
}

proof fn lemma_clipped_lines(d: Seq<u8>, max: u64)
    requires
        d.len() + 2 <= usize::MAX,
    ensures
        ({
            let cs = split_lines(d).map_values(|l: Seq<u8>| clip_line(l, max));
            &&& cs.len() + 1 <= usize::MAX
            &&& forall|i: int| 0 <= i < cs.len() ==> no_newline(#[trigger] cs[i])
            &&& forall|i: int| 0 <= i < cs.len() ==> clip_line(#[trigger] cs[i], max) == cs[i]
        }),
{
    let ls = split_lines(d);
    lemma_split_facts(d, 0);
    lemma_split_count(d, 0);
    let cs = ls.map_values(|l: Seq<u8>| clip_line(l, max));
    assert forall|i: int| 0 <= i < cs.len() implies no_newline(#[trigger] cs[i]) && clip_line(cs[i], max) == cs[i] by {
        assert(no_newline(ls[i]));
        lemma_clip_no_newline(ls[i], max);
        lemma_clip_idempotent(ls[i], max);
    }
}

/// Lines with no newline that clipping leaves alone.
pub open spec fn settled(ls: Seq<Seq<u8>>, max: u64) -> bool {
    forall|i: int| 0 <= i < ls.len() ==> no_newline(#[trigger] ls[i]) && clip_line(ls[i], max) == ls[i]
}

#[verifier::rlimit(100)]
proof fn lemma_reorder_settled(cs: Seq<Seq<u8>>, max: u64)
    requires
        cs.len() <= usize::MAX,
        settled(cs, max),
    ensures
        settled(reorder(cs), max),
        starts_sorted(reorder(cs)),
        reorder(cs).len() == cs.len(),
{
    lemma_reorder_facts(cs);
    let rs = reorder(cs);
    assert forall|i: int| 0 <= i < rs.len() implies no_newline(#[trigger] rs[i]) && clip_line(rs[i], max) == rs[i] by {
        let q = choose|q: int| 0 <= q < cs.len() && #[trigger] rs[i] == cs[q];
        assert(no_newline(cs[q]));
    }
}

#[verifier::rlimit(100)]
proof fn lemma_insert_settled(rs: Seq<Seq<u8>>, max: u64)
    requires
        settled(rs, max),
        starts_sorted(rs),
    ensures
        settled(insert_directive(rs), max),
        starts_sorted(insert_directive(rs)),
        insert_directive(rs).len() <= rs.len() + 1,
        insert_directive(rs).len() >= rs.len(),
        insert_directive(insert_directive(rs)) == insert_directive(rs),
{
    let ys = insert_directive(rs);
    lemma_insert_keeps_order(rs, ys);
    lemma_insert_directive_twice(rs, ys);
    lemma_directive_not_cue();
    assert forall|i: int| 0 <= i < ys.len() implies no_newline(#[trigger] ys[i]) && clip_line(ys[i], max) == ys[i] by {
        if ys[i] == directive_text() {
            let dir = directive_text();
            assert forall|k: int| 0 <= k < dir.len() implies dir[k] != 10 by {}
        } else {
            let j = choose|j: int| 0 <= j < rs.len() && ys[i] == rs[j];
            assert(no_newline(rs[j]));
        }
    }
    match first_header(rs) {
        Some(h) => {
            if !has_directive(rs) {
                lemma_header_from_found(rs, 0);
            }
        },
        None => {},
    }
}

#[verifier::rlimit(100)]
proof fn lemma_repaired_shape(d: Seq<u8>, max: u64)
    requires
        d.len() + 2 <= usize::MAX,
    ensures
        ({
            let ys = repaired_lines(d, max);
            &&& lines_ok(ys)
            &&& ys.len() <= usize::MAX
            &&& starts_sorted(ys)
            &&& forall|i: int| 0 <= i < ys.len() ==> clip_line(#[trigger] ys[i], max) == ys[i]
            &&& insert_directive(ys) == ys
        }),
{
    let cs = split_lines(d).map_values(|l: Seq<u8>| clip_line(l, max));
    lemma_split_facts(d, 0);
    lemma_clipped_lines(d, max);
    assert(settled(cs, max));
    lemma_reorder_settled(cs, max);
    lemma_insert_settled(reorder(cs), max);
    let ys = repaired_lines(d, max);
    assert(ys == insert_directive(reorder(cs)));
    assert(forall|i: int| 0 <= i < ys.len() ==> no_newline(#[trigger] ys[i]));
}

/// Repairing a repaired document changes nothing: the directive is already
/// there, every cue is within the video, and the cues are in order.
pub proof fn lemma_repair_idempotent(d: Seq<u8>, max: u64)
    requires
        d.len() + 2 <= usize::MAX,
    ensures
        repaired(repaired(d, max), max) == repaired(d, max),
{
    let ys = repaired_lines(d, max);
    lemma_repaired_shape(d, max);
    let out = join_lines(ys);
    assert(out.subrange(0, out.len() as int) =~= out);
    lemma_split_join(out, 0, ys);
    let cs2 = ys.map_values(|l: Seq<u8>| clip_line(l, max));
    assert(cs2 =~= ys);
    lemma_reorder_identity(ys);
    assert(repaired_lines(out, max) == ys);
}

proof fn lemma_insert_sorted_multiset(s: Seq<(u64, usize)>, x: (u64, usize))
    ensures
        insert_sorted(s, x).to_multiset() =~= s.to_multiset().insert(x),
    decreases s.len(),
{
    broadcast use vstd::seq_lib::group_to_multiset_ensures;

    if s.len() == 0 {
        assert(seq![x] =~= s.push(x));
    } else if s.last().0 <= x.0 {
    } else {
        lemma_insert_sorted_multiset(s.drop_last(), x);
        assert(s.drop_last().push(s.last()) =~= s);
    }
}

proof fn lemma_sort_multiset(s: Seq<(u64, usize)>)
    ensures
        sort_entries(s).to_multiset() =~= s.to_multiset(),
    decreases s.len(),
{
    broadcast use vstd::seq_lib::group_to_multiset_ensures;

    if s.len() > 0 {
        lemma_sort_multiset(s.drop_last());
        lemma_insert_sorted_multiset(sort_entries(s.drop_last()), s.last());
        assert(s.drop_last().push(s.last()) =~= s);
    }
}

/// The entry at rank `k` names a cue line with exactly `k` cues before it.
proof fn lemma_rank_of_entry(ls: Seq<Seq<u8>>, n: int, k: int)
    requires
        0 <= n <= ls.len(),
        ls.len() <= usize::MAX,
        0 <= k < entries_upto(ls, n).len(),
    ensures
        cues_before(ls, entries_upto(ls, n)[k].1 as int) == k,
    decreases n,
{
    let prev = entries_upto(ls, n - 1);
    if k < prev.len() {
        assert(entries_upto(ls, n)[k] == prev[k]);
        lemma_rank_of_entry(ls, n - 1, k);
    } else {
        assert(entries_upto(ls, n)[k].1 == (n - 1) as usize);
    }
}

/// Every cue line of the input takes some place in the reordered lines.
proof fn lemma_reorder_keeps_cue(ls: Seq<Seq<u8>>, q: int)
    requires
        ls.len() <= usize::MAX,
        0 <= q < ls.len(),
        is_cue(ls[q]),
    ensures
        exists|p: int| 0 <= p < ls.len() && #[trigger] reorder(ls)[p] == ls[q],
{
    broadcast use vstd::seq_lib::group_to_multiset_ensures;

    let n = ls.len() as int;
    let e = entries_upto(ls, n);
    let srt = sort_entries(e);
    lemma_entries_shape(ls, n);
    lemma_entry_at_rank(ls, q, n);
    let x = (cue_of(ls[q])->0.start, q as usize);
    assert(e.contains(x)) by {
        assert(e[cues_before(ls, q) as int] == x);
    }
    lemma_sort_multiset(e);
    assert(srt.to_multiset().count(x) > 0);
    assert(srt.contains(x));
    let k = choose|k: int| 0 <= k < srt.len() && srt[k] == x;
    lemma_sort_keeps(e);
    let p = e[k].1 as int;
    lemma_rank_of_entry(ls, n, k);
    assert(is_cue(ls[p]));
    assert(reorder(ls)[p] == ls[q]);
}

/// Every line of the input, clipped, has a place in the repaired lines.
proof fn lemma_repair_keeps_lines(d: Seq<u8>, max: u64, i: int)
    requires
        d.len() + 2 <= usize::MAX,
        0 <= i < split_lines(d).len(),
    ensures
        exists|j: int|
            0 <= j < repaired_lines(d, max).len() && #[trigger] repaired_lines(d, max)[j]
                == clip_line(split_lines(d)[i], max),
{
    let ls = split_lines(d);
    lemma_split_count(d, 0);
    let cs = ls.map_values(|l: Seq<u8>| clip_line(l, max));
    let rs = reorder(cs);
    let ys = insert_directive(rs);
    assert(ys == repaired_lines(d, max));
    let p: int = if is_cue(cs[i]) {
        lemma_reorder_keeps_cue(cs, i);
        choose|p: int| 0 <= p < cs.len() && #[trigger] rs[p] == cs[i]
    } else {
        i
    };
    assert(rs[p] == cs[i]);
    lemma_insert_keeps_line(rs, p);
}

/// Adding the directive keeps every line.
proof fn lemma_insert_keeps_line(rs: Seq<Seq<u8>>, p: int)
    requires
        0 <= p < rs.len(),
    ensures
        exists|j: int| 0 <= j < insert_directive(rs).len() && #[trigger] insert_directive(rs)[j] == rs[p],
{
    let ys = insert_directive(rs);
    match first_header(rs) {
        Some(h) => {
            if !has_directive(rs) {
                lemma_header_from_found(rs, 0);
                if p <= h {
                    assert(ys[p] == rs[p]);
                } else {
                    assert(ys[p + 1] == rs[p]);
                }
            } else {
                assert(ys[p] == rs[p]);
            }
        },
        None => {
            assert(ys[p] == rs[p]);
        },
    }
}

/// In a repaired document, a cue that ran past the end of the video is
/// there with its end at the end of the video and its start at the earlier
/// of its start and that end; a cue within bounds is there unchanged, byte
/// for byte.
pub proof fn lemma_repair_clips_cues(d: Seq<u8>, max: u64, i: int)
    requires
        d.len() + 2 <= usize::MAX,
        0 <= i < split_lines(d).len(),
        is_cue(split_lines(d)[i]),
    ensures
        ({
            let l = split_lines(d)[i];
            let c = cue_of(l)->0;
            let ys = repaired_lines(d, max);
            &&& c.end > max ==> exists|j: int|
                0 <= j < ys.len() && is_cue(#[trigger] ys[j]) && cue_of(ys[j])->0.end == max
                    && cue_of(ys[j])->0.start == (if c.start > max {
                    max
                } else {
                    c.start
                })
            &&& c.start <= max && c.end <= max ==> exists|j: int|
                0 <= j < ys.len() && #[trigger] ys[j] == l
        }),
{
    let l = split_lines(d)[i];
    lemma_clipping(l, max);
    lemma_repair_keeps_lines(d, max, i);
}

/// A document whose cues all lie within the video and are already in order
/// is kept as it is by the repair, but for the directive after the
/// script-info header.
pub proof fn lemma_repair_of_ordered(d: Seq<u8>, max: u64)
    requires
        d.len() + 2 <= usize::MAX,
        forall|i: int|
            0 <= i < split_lines(d).len() && is_cue(#[trigger] split_lines(d)[i]) ==> cue_of(
                split_lines(d)[i],
            )->0.start <= max && cue_of(split_lines(d)[i])->0.end <= max,
        starts_sorted(split_lines(d)),
    ensures
        repaired_lines(d, max) == insert_directive(split_lines(d)),
{
    let ls = split_lines(d);
    lemma_split_count(d, 0);
    let cs = ls.map_values(|l: Seq<u8>| clip_line(l, max));
    assert forall|i: int| 0 <= i < ls.len() implies #[trigger] cs[i] == ls[i] by {
        if is_cue(ls[i]) {
            lemma_clipping(ls[i], max);
        }
    }
    assert(cs =~= ls);
    lemma_reorder_identity(ls);
}

} // verus!
