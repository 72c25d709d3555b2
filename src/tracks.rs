//! Titles and order of the streams in the muxed output.
use crate::subtitles::{sort_by_start, sort_entries};
use crate::text::{dec, push_decimal, same_chars, strs};
use vstd::prelude::*;

verus! {

/// ` [Video: #n]` for the `index`-th format (counted from zero).
pub open spec fn video_suffix(index: nat) -> Seq<char> {
    " [Video: #"@ + dec(index + 1) + "]"@
}

fn push_video_suffix(s: &mut String, index: u64)
    requires
        index < u64::MAX,
    ensures
        final(s)@ == old(s)@ + video_suffix(index as nat),
{
    let ghost s0 = s@;
    s.append(" [Video: #");
    push_decimal(s, index + 1);
    s.append("]");
    assert(s@ =~= s0 + video_suffix(index as nat));
}

/// The title of an audio stream: its language, and the format's number
/// after the first format.
pub open spec fn audio_title_text(language: Seq<char>, index: nat) -> Seq<char> {
    if index == 0 {
        language
    } else {
        language + video_suffix(index)
    }
}

pub fn audio_title(language: &str, index: u64) -> (r: String)
    requires
        index < u64::MAX,
    ensures
        r@ == audio_title_text(language@, index as nat),
{
    let mut s = String::from_str(language);
    if index != 0 {
        push_video_suffix(&mut s, index);
    }
    s
}

/// The title of a subtitle stream: its language, ` (CC)` for closed
/// captions, and the format's number after the first format.
pub open spec fn subtitle_title_text(language: Seq<char>, closed_caption: bool, index: nat) -> Seq<
    char,
> {
    let a = if closed_caption {
        language + " (CC)"@
    } else {
        language
    };
    if index == 0 {
        a
    } else {
        a + video_suffix(index)
    }
}

pub fn subtitle_title(language: &str, closed_caption: bool, index: u64) -> (r: String)
    requires
        index < u64::MAX,
    ensures
        r@ == subtitle_title_text(language@, closed_caption, index as nat),
{
    let mut s = String::from_str(language);
    if closed_caption {
        s.append(" (CC)");
    }
    if index != 0 {
        push_video_suffix(&mut s, index);
    }
    s
}

/// The title of a video stream: `Default` when it is the only one, else
/// `#n`.
pub open spec fn video_title_text(count: nat, index: nat) -> Seq<char> {
    if count == 1 {
        "Default"@
    } else {
        "#"@ + dec(index + 1)
    }
}

pub fn video_title(count: u64, index: u64) -> (r: String)
    requires
        index < u64::MAX,
    ensures
        r@ == video_title_text(count as nat, index as nat),
{
    if count == 1 {
        String::from_str("Default")
    } else {
        let mut s = String::from_str("#");
        push_decimal(&mut s, index + 1);
        s
    }
}

/// The position of `locale` in the preferred order, if it is listed.
pub open spec fn rank_of(order: Seq<Seq<char>>, locale: Seq<char>) -> Option<nat>
    decreases order.len(),
{
    if order.len() == 0 {
        None
    } else if order[0] == locale {
        Some(0)
    } else {
        match rank_of(order.drop_first(), locale) {
            Some(p) => Some(p + 1),
            None => None,
        }
    }
}

/// The sort key of a locale: unlisted locales come first, then the listed
/// ones in the preferred order.
pub open spec fn locale_key(order: Seq<Seq<char>>, locale: Seq<char>) -> nat {
    match rank_of(order, locale) {
        Some(p) => p + 1,
        None => 0,
    }
}

pub fn locale_rank_key(order: &Vec<String>, locale: &str) -> (r: u64)
    ensures
        r == locale_key(strs(order@), locale@),
{
    let ghost o = strs(order@);
    let mut i: usize = 0;
    assert(o.subrange(0, o.len() as int) =~= o);
    while i < order.len()
        invariant
            i <= order@.len(),
            o == strs(order@),
            rank_of(o, locale@) == match rank_of(o.subrange(i as int, o.len() as int), locale@) {
                Some(p) => Some((p + i) as nat),
                None => None::<nat>,
            },
        decreases order@.len() - i,
    {
        if same_chars(order[i].as_str(), locale) {
            return (i as u64) + 1;
        }
        assert(o.subrange(i as int, o.len() as int).drop_first() =~= o.subrange(i + 1, o.len() as int));
        i = i + 1;
    }
    0
}

/// The sort key of a subtitle: its locale's key, full subtitles before
/// closed captions of the same locale.
pub open spec fn subtitle_key(order: Seq<Seq<char>>, locale: Seq<char>, closed_caption: bool) -> nat {
    locale_key(order, locale) * 2 + if closed_caption {
        1nat
    } else {
        0nat
    }
}

pub fn subtitle_rank_key(order: &Vec<String>, locale: &str, closed_caption: bool) -> (r: u64)
    requires
        order@.len() < u64::MAX / 4,
    ensures
        r == subtitle_key(strs(order@), locale@, closed_caption),
{
    let k = locale_rank_key(order, locale);
    proof {
        lemma_rank_bound(strs(order@), locale@);
    }
    k * 2 + if closed_caption {
        1
    } else {
        0
    }
}

proof fn lemma_rank_bound(o: Seq<Seq<char>>, l: Seq<char>)
    ensures
        locale_key(o, l) <= o.len(),
    decreases o.len(),
{
    if o.len() > 0 && o[0] != l {
        lemma_rank_bound(o.drop_first(), l);
    }
}

/// The keyed positions `0..n`.
pub open spec fn keyed(keys: Seq<u64>) -> Seq<(u64, usize)> {
    Seq::new(keys.len(), |i: int| (keys[i], i as usize))
}

/// The order in which items with these keys go: by key, equal keys in
/// their given order.
pub fn stable_order(keys: &Vec<u64>) -> (r: Vec<usize>)
    ensures
        r@ == sort_entries(keyed(keys@)).map_values(|e: (u64, usize)| e.1),
{
    let mut entries: Vec<(u64, usize)> = Vec::new();
    let mut i: usize = 0;
    while i < keys.len()
        invariant
            i <= keys@.len(),
            entries@ == keyed(keys@.subrange(0, i as int)),
        decreases keys@.len() - i,
    {
        entries.push((keys[i], i));
        assert(entries@ =~= keyed(keys@.subrange(0, i + 1)));
        i = i + 1;
    }
    assert(keys@.subrange(0, i as int) =~= keys@);
    let sorted = sort_by_start(&entries);
    let mut out: Vec<usize> = Vec::new();
    let mut k: usize = 0;
    while k < sorted.len()
        invariant
            k <= sorted@.len(),
            out@ == sorted@.subrange(0, k as int).map_values(|e: (u64, usize)| e.1),
        decreases sorted@.len() - k,
    {
        out.push(sorted[k].1);
        assert(out@ =~= sorted@.subrange(0, k + 1).map_values(|e: (u64, usize)| e.1));
        k = k + 1;
    }
    assert(sorted@.subrange(0, k as int) =~= sorted@);
    out
}

} // verus!
