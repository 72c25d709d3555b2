//! Progress of the mux process, read from its status lines, and the video
//! length read from its probe output.
use crate::subtitles::is_blank;
use crate::timecode::{clock_at, digit_run, digits_value, lemma_digit_run_bound, parse_clock};
use vstd::prelude::*;

verus! {

/// `frame=`
pub open spec fn frame_tag() -> Seq<u8> {
    seq![102u8, 114, 97, 109, 101, 61]
}

/// `Duration:`
pub open spec fn duration_tag() -> Seq<u8> {
    seq![68u8, 117, 114, 97, 116, 105, 111, 110, 58]
}

/// The number of white-space bytes in `s` from `i` on.
pub open spec fn blank_run(s: Seq<u8>, i: int) -> nat
    decreases s.len() - i,
{
    if 0 <= i < s.len() && is_blank(s[i]) {
        1 + blank_run(s, i + 1)
    } else {
        0
    }
}

/// The frame count of a `frame=`, white space, digits match at `i`.
pub open spec fn frame_at(s: Seq<u8>, i: int) -> Option<nat> {
    let w = blank_run(s, i + 6) as int;
    let d = digit_run(s, i + 6 + w) as int;
    if 0 <= i && i + 6 <= s.len() && s.subrange(i, i + 6) == frame_tag() && w > 0 && d > 0 {
        Some(digits_value(s, i + 6 + w, i + 6 + w + d))
    } else {
        None
    }
}

/// The frame count of the leftmost match at or after `i`.
pub open spec fn frame_from(s: Seq<u8>, i: int) -> Option<nat>
    decreases s.len() - i,
{
    if i < 0 || i >= s.len() {
        None
    } else {
        match frame_at(s, i) {
            Some(f) => Some(f),
            None => frame_from(s, i + 1),
        }
    }
}

/// The frame count a status line reports, when it reports one that fits.
pub open spec fn line_frame(s: Seq<u8>) -> Option<u64> {
    match frame_from(s, 0) {
        Some(f) => if f <= u64::MAX {
            Some(f as u64)
        } else {
            None
        },
        None => None,
    }
}

fn tag_at(s: &[u8], i: usize, tag: &Vec<u8>) -> (r: bool)
    requires
        i <= s@.len(),
    ensures
        r == (i + tag@.len() <= s@.len() && s@.subrange(i as int, i + tag@.len()) == tag@),
{
    let n = s.len();
    if tag.len() > n - i {
        return false;
    }
    let mut k: usize = 0;
    while k < tag.len()
        invariant
            n == s@.len(),
            i + tag@.len() <= s@.len(),
            k <= tag@.len(),
            forall|q: int| 0 <= q < k ==> s@[i + q] == tag@[q],
        decreases tag@.len() - k,
    {
        if s[i + k] != tag[k] {
            assert(s@.subrange(i as int, i + tag@.len())[k as int] != tag@[k as int]);
            return false;
        }
        k = k + 1;
    }
    assert(s@.subrange(i as int, i + tag@.len()) =~= tag@);
    true
}

fn frame_tag_bytes() -> (r: Vec<u8>)
    ensures
        r@ == frame_tag(),
{
    let mut r: Vec<u8> = Vec::new();
    r.push(102);
    r.push(114);
    r.push(97);
    r.push(109);
    r.push(101);
    r.push(61);
    assert(r@ =~= frame_tag());
    r
}

fn duration_tag_bytes() -> (r: Vec<u8>)
    ensures
        r@ == duration_tag(),
{
    let mut r: Vec<u8> = Vec::new();
    r.push(68);
    r.push(117);
    r.push(114);
    r.push(97);
    r.push(116);
    r.push(105);
    r.push(111);
    r.push(110);
    r.push(58);
    assert(r@ =~= duration_tag());
    r
}

/// The frame count of a match at `i`; `Some(None)` when it is too large.
fn frame_match(s: &[u8], i: usize, tag: &Vec<u8>) -> (r: Option<Option<u64>>)
    requires
        i <= s@.len(),
        tag@ == frame_tag(),
    ensures
        match frame_at(s@, i as int) {
            Some(f) => r is Some && (f <= u64::MAX ==> r->0 == Some(f as u64)) && (f > u64::MAX
                ==> r->0 is None),
            None => r is None,
        },
{
    let n = s.len();
    if !tag_at(s, i, tag) {
        return None;
    }
    let mut j = i + 6;
    while j < s.len() && (s[j] == 32 || s[j] == 9 || s[j] == 10 || s[j] == 13 || s[j] == 11
        || s[j] == 12)
        invariant
            i + 6 <= j <= s@.len(),
            blank_run(s@, i + 6) == (j - (i + 6)) + blank_run(s@, j as int),
        decreases s@.len() - j,
    {
        j = j + 1;
    }
    assert(blank_run(s@, j as int) == 0);
    if j == i + 6 {
        return None;
    }
    let mut e = j;
    let mut v: Option<u64> = Some(0);
    proof {
        lemma_digit_run_bound(s@, j as int);
    }
    while e < s.len() && 48 <= s[e] && s[e] <= 57
        invariant
            j <= e <= s@.len(),
            digit_run(s@, j as int) == (e - j) + digit_run(s@, e as int),
            match v {
                Some(x) => x == digits_value(s@, j as int, e as int),
                None => digits_value(s@, j as int, e as int) > u64::MAX,
            },
        decreases s@.len() - e,
    {
        let d = (s[e] - 48) as u64;
        let ghost dv = digits_value(s@, j as int, e as int);
        v = match v {
            Some(x) => {
                if x > (u64::MAX - d) / 10 {
                    None
                } else {
                    Some(x * 10 + d)
                }
            },
            None => None,
        };
        proof {
            assert(digits_value(s@, j as int, e + 1) == dv * 10 + d);
            if v is None {
                assert(dv * 10 + d > u64::MAX) by (nonlinear_arith)
                    requires dv > u64::MAX || dv > (u64::MAX - d) / 10, d <= 9;
            }
        }
        e = e + 1;
    }
    assert(digit_run(s@, e as int) == 0);
    if e == j {
        return None;
    }
    Some(v)
}

/// Reads the frame count of a status line: the first `frame=` followed by
/// white space and digits. A line without one, or with a count too large,
/// gives `None`.
pub fn parse_frame_line(s: &[u8]) -> (r: Option<u64>)
    ensures
        r == line_frame(s@),
{
    let tag = frame_tag_bytes();
    let mut i: usize = 0;
    while i < s.len()
        invariant
            i <= s@.len(),
            tag@ == frame_tag(),
            frame_from(s@, 0) == frame_from(s@, i as int),
        decreases s@.len() - i,
    {
        match frame_match(s, i, &tag) {
            Some(v) => {
                return v;
            },
            None => {},
        }
        i = i + 1;
    }
    None
}

/// What the monitor does after a status line.
pub enum ProgressStep {
    /// Show this many frames done.
    Advance(u64),
    /// The line could not be read: stop reading, without failing.
    Stop,
}

/// The progress shown for one mux run.
pub struct ProgressMonitor {
    pub total: u64,
    pub position: u64,
    pub finished: bool,
}

impl ProgressMonitor {
    /// A monitor for a run of about `total` frames.
    pub fn new(total: u64) -> (r: ProgressMonitor)
        ensures
            r.total == total,
            r.position == 0,
            !r.finished,
    {
        ProgressMonitor { total, position: 0, finished: false }
    }

    /// Takes one status line.
    pub fn on_line(&mut self, line: &[u8]) -> (r: ProgressStep)
        ensures
            final(self).total == old(self).total,
            match line_frame(line@) {
                Some(f) => r == ProgressStep::Advance(f) && final(self).position == f
                    && final(self).finished == old(self).finished,
                None => r == ProgressStep::Stop && final(self).position == old(self).position
                    && final(self).finished,
            },
    {
        match parse_frame_line(line) {
            Some(f) => {
                self.position = f;
                ProgressStep::Advance(f)
            },
            None => {
                self.finished = true;
                ProgressStep::Stop
            },
        }
    }

    /// The run was cancelled because the mux process is done: the
    /// indicator goes to the end.
    pub fn cancel(&mut self)
        ensures
            final(self).total == old(self).total,
            final(self).position == old(self).total,
            final(self).finished,
    {
        self.position = self.total;
        self.finished = true;
    }
}

/// The length of a `Duration:`, one white space, clock time, comma match at `i`.
pub open spec fn duration_at(s: Seq<u8>, i: int) -> Option<u64> {
    if 0 <= i && i + 10 <= s.len() && s.subrange(i, i + 9) == duration_tag() && is_blank(s[i + 9]) {
        match clock_at(s, i + 10) {
            Some((v, e)) => if e < s.len() && s[e] == 44 {
                Some(v)
            } else {
                None
            },
            None => None,
        }
    } else {
        None
    }
}

/// The length given by the leftmost match at or after `i`.
pub open spec fn duration_from(s: Seq<u8>, i: int) -> Option<u64>
    decreases s.len() - i,
{
    if i < 0 || i >= s.len() {
        None
    } else {
        match duration_at(s, i) {
            Some(v) => Some(v),
            None => duration_from(s, i + 1),
        }
    }
}

/// Reads the video length, in centiseconds, from the probe output of the
/// mux process.
pub fn parse_video_length(s: &[u8]) -> (r: Option<u64>)
    ensures
        r == duration_from(s@, 0),
{
    let tag = duration_tag_bytes();
    let mut i: usize = 0;
    while i < s.len()
        invariant
            i <= s@.len(),
            tag@ == duration_tag(),
            duration_from(s@, 0) == duration_from(s@, i as int),
        decreases s@.len() - i,
    {
        if s.len() - i >= 10 && tag_at(s, i, &tag) {
            let b = s[i + 9];
            if b == 32 || b == 9 || b == 10 || b == 13 || b == 11 || b == 12 {
                match parse_clock(s, i + 10) {
                    Some((v, e)) => {
                        proof {
                            crate::timecode::lemma_clock_at_bound(s@, i + 10);
                        }
                        if e < s.len() && s[e] == 44 {
                            return Some(v);
                        }
                    },
                    None => {},
                }
            }
        }
        i = i + 1;
    }
    None
}

} // verus!
