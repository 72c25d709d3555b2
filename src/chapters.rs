//! Chapters from skip events (recap, intro, credits, preview), with filler
//! "Episode" chapters over the gaps longer than ten seconds, written as a
//! metadata stream for the mux process.
use crate::text::{dec, lemma_flatten_push, push_decimal};
use vstd::prelude::*;

verus! {

/// Gaps longer than this many seconds get a filler chapter.
pub const FILLER_GAP: u32 = 10;

/// A named span of the video, in whole seconds.
pub struct Chapter {
    pub title: String,
    pub start: u32,
    pub end: u32,
}

/// The mathematical content of a chapter.
pub struct ChapterView {
    pub title: Seq<char>,
    pub start: u32,
    pub end: u32,
}

pub open spec fn chapter_view(c: Chapter) -> ChapterView {
    ChapterView { title: c.title@, start: c.start, end: c.end }
}

pub open spec fn chapters_view(cs: Seq<Chapter>) -> Seq<ChapterView> {
    cs.map_values(|c: Chapter| chapter_view(c))
}

pub open spec fn episode(start: u32, end: u32) -> ChapterView {
    ChapterView { title: "Episode"@, start, end }
}

/// The chapters for `events` (sorted by start) after the previous chapter
/// ended at `last`, in a video of `video_len` seconds.
pub open spec fn chapters_from(events: Seq<ChapterView>, last: u32, video_len: u32) -> Seq<
    ChapterView,
>
    decreases events.len(),
{
    if events.len() == 0 {
        if video_len - last > FILLER_GAP {
            seq![episode(last, video_len)]
        } else {
            Seq::empty()
        }
    } else {
        let e = events[0];
        (if e.start - last > FILLER_GAP {
            seq![episode(last, e.start)]
        } else {
            Seq::empty()
        }) + seq![e] + chapters_from(events.drop_first(), e.end, video_len)
    }
}

/// The skip events that are present, in the order recap, intro, credits,
/// preview.
pub open spec fn present_events(
    recap: Option<(u32, u32)>,
    intro: Option<(u32, u32)>,
    credits: Option<(u32, u32)>,
    preview: Option<(u32, u32)>,
) -> Seq<ChapterView> {
    opt_event("Recap"@, recap) + opt_event("Intro"@, intro) + opt_event("Credits"@, credits)
        + opt_event("Preview"@, preview)
}

pub open spec fn opt_event(title: Seq<char>, e: Option<(u32, u32)>) -> Seq<ChapterView> {
    match e {
        Some((s, t)) => seq![ChapterView { title, start: s, end: t }],
        None => Seq::empty(),
    }
}

/// `x` placed after every event that does not start later.
pub open spec fn insert_by_start(s: Seq<ChapterView>, x: ChapterView) -> Seq<ChapterView>
    decreases s.len(),
{
    if s.len() == 0 {
        seq![x]
    } else if s.last().start <= x.start {
        s.push(x)
    } else {
        insert_by_start(s.drop_last(), x).push(s.last())
    }
}

/// The events sorted by start, equal starts kept in their order.
pub open spec fn sort_by_start(s: Seq<ChapterView>) -> Seq<ChapterView>
    decreases s.len(),
{
    if s.len() == 0 {
        s
    } else {
        insert_by_start(sort_by_start(s.drop_last()), s.last())
    }
}

/// The chapter list for the skip events of a video of `video_len` seconds.
pub open spec fn chapter_list(events: Seq<ChapterView>, video_len: u32) -> Seq<ChapterView> {
    chapters_from(sort_by_start(events), 0, video_len)
}

fn chapter(title: &str, start: u32, end: u32) -> (r: Chapter)
    ensures
        chapter_view(r) == (ChapterView { title: title@, start, end }),
{
    Chapter { title: String::from_str(title), start, end }
}

fn push_chapter(out: &mut Vec<Chapter>, c: Chapter)
    ensures
        chapters_view(final(out)@) == chapters_view(old(out)@).push(chapter_view(c)),
{
    let ghost cv = chapter_view(c);
    out.push(c);
    assert(chapters_view(out@) =~= chapters_view(old(out)@).push(cv));
}

/// The skip events that are present, named and in their fixed order.
pub fn skip_events(
    recap: Option<(u32, u32)>,
    intro: Option<(u32, u32)>,
    credits: Option<(u32, u32)>,
    preview: Option<(u32, u32)>,
) -> (r: Vec<Chapter>)
    ensures
        chapters_view(r@) == present_events(recap, intro, credits, preview),
{
    let mut out: Vec<Chapter> = Vec::new();
    assert(chapters_view(out@) =~= Seq::<ChapterView>::empty());
    if let Some((s, e)) = recap {
        push_chapter(&mut out, chapter("Recap", s, e));
    }
    let ghost a = chapters_view(out@);
    assert(a =~= opt_event("Recap"@, recap));
    if let Some((s, e)) = intro {
        push_chapter(&mut out, chapter("Intro", s, e));
    }
    let ghost b = chapters_view(out@);
    assert(b =~= a + opt_event("Intro"@, intro));
    if let Some((s, e)) = credits {
        push_chapter(&mut out, chapter("Credits", s, e));
    }
    let ghost c = chapters_view(out@);
    assert(c =~= b + opt_event("Credits"@, credits));
    if let Some((s, e)) = preview {
        push_chapter(&mut out, chapter("Preview", s, e));
    }
    assert(chapters_view(out@) =~= c + opt_event("Preview"@, preview));
    out
}

proof fn lemma_insert_at(s: Seq<ChapterView>, x: ChapterView, j: int)
    requires
        0 <= j <= s.len(),
        forall|k: int| j <= k < s.len() ==> s[k].start > x.start,
        j == 0 || s[j - 1].start <= x.start,
    ensures
        insert_by_start(s, x) == s.subrange(0, j) + seq![x] + s.subrange(j, s.len() as int),
    decreases s.len(),
{
    if s.len() == 0 {
        assert(s.subrange(0, j) + seq![x] + s.subrange(j, s.len() as int) =~= seq![x]);
    } else if j == s.len() {
        assert(s.subrange(0, j) + seq![x] + s.subrange(j, s.len() as int) =~= s.push(x));
    } else {
        lemma_insert_at(s.drop_last(), x, j);
        assert(s.drop_last().subrange(0, j) + seq![x] + s.drop_last().subrange(j, s.len() - 1)
            =~= (s.subrange(0, j) + seq![x] + s.subrange(j, s.len() as int)).drop_last());
        assert((s.subrange(0, j) + seq![x] + s.subrange(j, s.len() as int)) =~= (s.subrange(0, j)
            + seq![x] + s.subrange(j, s.len() as int)).drop_last().push(s.last()));
    }
}

fn copy_chapter(c: &Chapter) -> (r: Chapter)
    ensures
        chapter_view(r) == chapter_view(*c),
{
    Chapter { title: c.title.clone(), start: c.start, end: c.end }
}

/// Sorts chapters by start, keeping equal starts in their order.
pub fn sort_chapters(events: &Vec<Chapter>) -> (r: Vec<Chapter>)
    ensures
        chapters_view(r@) == sort_by_start(chapters_view(events@)),
{
    let ghost ev = chapters_view(events@);
    let mut out: Vec<Chapter> = Vec::new();
    let mut i: usize = 0;
    assert(ev.subrange(0, 0) =~= Seq::<ChapterView>::empty());
    assert(chapters_view(out@) =~= Seq::<ChapterView>::empty());
    while i < events.len()
        invariant
            i <= events@.len(),
            ev == chapters_view(events@),
            chapters_view(out@) == sort_by_start(ev.subrange(0, i as int)),
        decreases events@.len() - i,
    {
        let x = copy_chapter(&events[i]);
        let mut j = out.len();
        while j > 0 && out[j - 1].start > x.start
            invariant
                j <= out@.len(),
                forall|k: int| j <= k < out@.len() ==> out@[k].start > x.start,
            decreases j,
        {
            j = j - 1;
        }
        let ghost before = chapters_view(out@);
        let ghost xv = chapter_view(x);
        proof {
            lemma_insert_at(before, xv, j as int);
            assert(ev.subrange(0, i + 1).drop_last() =~= ev.subrange(0, i as int));
        }
        out.insert(j, x);
        assert(chapters_view(out@) =~= before.subrange(0, j as int) + seq![xv] + before.subrange(
            j as int,
            before.len() as int,
        ));
        i = i + 1;
    }
    assert(ev.subrange(0, i as int) =~= ev);
    out
}

/// Builds the chapter list from events sorted by start: a filler
/// "Episode" chapter goes before an event that starts more than ten seconds
/// after the previous chapter ended, and after the last one when the video
/// runs on for more than ten seconds.
pub fn fill_chapters(events: &Vec<Chapter>, video_len: u32) -> (r: Vec<Chapter>)
    ensures
        chapters_view(r@) == chapters_from(chapters_view(events@), 0, video_len),
{
    let ghost ev = chapters_view(events@);
    let mut out: Vec<Chapter> = Vec::new();
    let mut last: u32 = 0;
    let mut i: usize = 0;
    assert(ev.subrange(0, ev.len() as int) =~= ev);
    assert(chapters_view(out@) =~= Seq::<ChapterView>::empty());
    while i < events.len()
        invariant
            i <= events@.len(),
            ev == chapters_view(events@),
            chapters_from(ev, 0, video_len) == chapters_view(out@) + chapters_from(
                ev.subrange(i as int, ev.len() as int),
                last,
                video_len,
            ),
        decreases events@.len() - i,
    {
        let ghost before = chapters_view(out@);
        let ghost rest = ev.subrange(i as int, ev.len() as int);
        let e = &events[i];
        if e.start as i64 - last as i64 > FILLER_GAP as i64 {
            push_chapter(&mut out, chapter("Episode", last, e.start));
        }
        push_chapter(&mut out, copy_chapter(e));
        proof {
            assert(rest.drop_first() =~= ev.subrange(i + 1, ev.len() as int));
            assert(chapters_view(out@) + chapters_from(rest.drop_first(), e.end, video_len) =~= before
                + chapters_from(rest, last, video_len));
        }
        last = e.end;
        i = i + 1;
    }
    let ghost before = chapters_view(out@);
    if video_len as i64 - last as i64 > FILLER_GAP as i64 {
        push_chapter(&mut out, chapter("Episode", last, video_len));
    }
    assert(chapters_view(out@) =~= before + chapters_from(
        ev.subrange(i as int, ev.len() as int),
        last,
        video_len,
    ));
    out
}

/// The chapter list for skip events in any order.
pub fn build_chapters(events: &Vec<Chapter>, video_len: u32) -> (r: Vec<Chapter>)
    ensures
        chapters_view(r@) == chapter_list(chapters_view(events@), video_len),
{
    let sorted = sort_chapters(events);
    fill_chapters(&sorted, video_len)
}

/// The metadata block of one chapter.
pub open spec fn chapter_block(c: ChapterView) -> Seq<char> {
    "[CHAPTER]\nTIMEBASE=1/1\nSTART="@ + dec(c.start as nat) + "\nEND="@ + dec(c.end as nat)
        + "\ntitle="@ + c.title + "\n"@
}

/// The chapter metadata stream: a header line, then one block per chapter.
pub open spec fn chapter_metadata(cs: Seq<ChapterView>) -> Seq<char> {
    ";FFMETADATA1\n"@ + Seq::new(cs.len(), |i: int| chapter_block(cs[i])).flatten()
}

/// Writes the chapter metadata stream for the mux process.
pub fn chapter_metadata_text(cs: &Vec<Chapter>) -> (r: String)
    ensures
        r@ == chapter_metadata(chapters_view(cs@)),
{
    let ghost v = chapters_view(cs@);
    let ghost f = |i: int| chapter_block(v[i]);
    let mut out = String::from_str(";FFMETADATA1\n");
    let ghost head = out@;
    assert(Seq::new(0, f) =~= Seq::<Seq<char>>::empty());
    assert(out@ =~= head + Seq::new(0, f).flatten());
    let mut i: usize = 0;
    while i < cs.len()
        invariant
            i <= cs@.len(),
            v == chapters_view(cs@),
            f == (|i: int| chapter_block(v[i])),
            out@ == head + Seq::new(i as nat, f).flatten(),
        decreases cs@.len() - i,
    {
        let ghost before = out@;
        let c = &cs[i];
        out.append("[CHAPTER]\nTIMEBASE=1/1\nSTART=");
        push_decimal(&mut out, c.start as u64);
        out.append("\nEND=");
        push_decimal(&mut out, c.end as u64);
        out.append("\ntitle=");
        out.append(c.title.as_str());
        out.append("\n");
        proof {
            assert(out@ =~= before + chapter_block(v[i as int]));
            assert(Seq::new((i + 1) as nat, f) =~= Seq::new(i as nat, f).push(f(i as int)));
            lemma_flatten_push(Seq::new(i as nat, f), f(i as int));
        }
        i = i + 1;
    }
    out
}

/// Before each event, a gap of more than ten seconds since the previous
/// chapter ended gets an "Episode" chapter over it, right before the event's
/// own chapter; a gap of ten seconds or less, or an overlap, gets none. The
/// rest follows from the event's end on.
pub proof fn lemma_filler_before_event(events: Seq<ChapterView>, last: u32, video_len: u32)
    requires
        events.len() > 0,
    ensures
        ({
            let e = events[0];
            let cs = chapters_from(events, last, video_len);
            let rest = chapters_from(events.drop_first(), e.end, video_len);
            &&& e.start - last > 10 ==> cs == seq![episode(last, e.start), e] + rest
            &&& e.start - last <= 10 ==> cs == seq![e] + rest
        }),
{
    let e = events[0];
    let rest = chapters_from(events.drop_first(), e.end, video_len);
    assert(seq![episode(last, e.start)] + seq![e] + rest =~= seq![episode(last, e.start), e]
        + rest);
    assert(Seq::<ChapterView>::empty() + seq![e] + rest =~= seq![e] + rest);
}

/// After the last event, the rest of the video gets an "Episode" chapter
/// when it is longer than ten seconds, and nothing otherwise.
pub proof fn lemma_filler_after_last(last: u32, video_len: u32)
    ensures
        video_len - last > 10 ==> chapters_from(Seq::empty(), last, video_len) == seq![
            episode(last, video_len),
        ],
        video_len - last <= 10 ==> chapters_from(Seq::empty(), last, video_len) == Seq::<
            ChapterView,
        >::empty(),
{
}

} // verus!
