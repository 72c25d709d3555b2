//! The argument list of the external mux process.
//!
//! Every staged artifact becomes an input with a stream map and per-stream
//! metadata; fonts become attachments; the chosen default subtitle is either
//! flagged as default (soft subtitles) or burnt into the picture.
use crate::text::{
    contains_text, dec, decimal, has_infix, joined, lemma_flatten_push, push_char, push_decimal,
    same_chars, strs,
};
use vstd::prelude::*;

verus! {

/// One staged file handed to the mux process.
pub struct TrackMeta {
    pub path: String,
    /// The locale code of the track.
    pub language: String,
    pub title: String,
}

/// How the output is to be written.
pub struct MuxSettings {
    /// The extension of the destination file (`mkv`, `mp4`, ...).
    pub container: String,
    pub force_hardsub: bool,
    /// The locale of the subtitle to show by default.
    pub default_subtitle: Option<String>,
    /// An explicit output format for the mux process.
    pub output_format: Option<String>,
    pub threads: Option<u64>,
    /// Whether the encoding preset was written by the user; then the thread
    /// count is left to it.
    pub preset_custom: bool,
    pub input_presets: Vec<String>,
    pub output_presets: Vec<String>,
    /// Locale code to language tag, for audio streams.
    pub audio_language_map: Vec<(String, String)>,
    /// Locale code to language tag, for subtitle streams.
    pub subtitle_language_map: Vec<(String, String)>,
    /// Whether paths follow Windows syntax.
    pub windows: bool,
}

/// Everything that goes into one mux run.
pub struct MuxInputs {
    pub videos: Vec<TrackMeta>,
    pub audios: Vec<TrackMeta>,
    pub subtitles: Vec<TrackMeta>,
    pub fonts: Vec<String>,
    pub chapters: Option<String>,
    /// Where the mux process writes its progress lines.
    pub stats_path: String,
    pub destination: String,
}

pub open spec fn paths(ts: Seq<TrackMeta>) -> Seq<Seq<char>> {
    ts.map_values(|t: TrackMeta| t.path@)
}

/// Whether the container can carry subtitles as streams of their own.
pub open spec fn soft_subs(s: MuxSettings) -> bool {
    !s.force_hardsub && (s.container@ == "mkv"@ || s.container@ == "mov"@ || s.container@
        == "mp4"@)
}

/// The language tag for a locale: its entry in `m`, else the locale itself.
pub open spec fn out_lang(m: Seq<(String, String)>, lang: Seq<char>) -> Seq<char>
    decreases m.len(),
{
    if m.len() == 0 {
        lang
    } else if m[0].0@ == lang {
        m[0].1@
    } else {
        out_lang(m.drop_first(), lang)
    }
}

/// The position of the first track with language `lang`.
pub open spec fn position_of(ts: Seq<TrackMeta>, lang: Seq<char>) -> Option<nat>
    decreases ts.len(),
{
    if ts.len() == 0 {
        None
    } else if ts[0].language@ == lang {
        Some(0)
    } else {
        match position_of(ts.drop_first(), lang) {
            Some(p) => Some(p + 1),
            None => None,
        }
    }
}

/// The default subtitle's position, if one is asked for and present.
pub open spec fn default_position(inp: MuxInputs, s: MuxSettings) -> Option<nat> {
    match s.default_subtitle {
        Some(l) => position_of(inp.subtitles@, l@),
        None => None,
    }
}

pub open spec fn input_args(ps: Seq<Seq<char>>) -> Seq<Seq<char>> {
    Seq::new(ps.len(), |i: int| seq!["-i"@, ps[i]]).flatten()
}

pub open spec fn map_args(n: nat, offset: nat) -> Seq<Seq<char>> {
    Seq::new(n, |i: int| seq!["-map"@, dec((i + offset) as nat)]).flatten()
}

pub open spec fn attach_args(fonts: Seq<Seq<char>>) -> Seq<Seq<char>> {
    Seq::new(fonts.len(), |i: int| seq!["-attach"@, fonts[i]]).flatten()
}

/// Video streams get their title and a blank language.
pub open spec fn video_metadata(vs: Seq<TrackMeta>) -> Seq<Seq<char>> {
    Seq::new(
        vs.len(),
        |i: int|
            seq![
                "-metadata:s:v:"@ + dec(i as nat),
                "title="@ + vs[i].title@,
                "-metadata:s:v:"@ + dec(i as nat),
                "language="@,
            ],
    ).flatten()
}

pub open spec fn audio_metadata(a: Seq<TrackMeta>, m: Seq<(String, String)>) -> Seq<Seq<char>> {
    Seq::new(
        a.len(),
        |i: int|
            seq![
                "-metadata:s:a:"@ + dec(i as nat),
                "language="@ + out_lang(m, a[i].language@),
                "-metadata:s:a:"@ + dec(i as nat),
                "title="@ + a[i].title@,
            ],
    ).flatten()
}

pub open spec fn font_metadata(n: nat) -> Seq<Seq<char>> {
    Seq::new(n, |i: int| seq!["-metadata:s:t:"@ + dec(i as nat), "mimetype=font/woff2"@]).flatten()
}

pub open spec fn subtitle_metadata(s: Seq<TrackMeta>, m: Seq<(String, String)>) -> Seq<
    Seq<char>,
> {
    Seq::new(
        s.len(),
        |i: int|
            seq![
                "-metadata:s:s:"@ + dec(i as nat),
                "language="@ + out_lang(m, s[i].language@),
                "-metadata:s:s:"@ + dec(i as nat),
                "title="@ + s[i].title@,
            ],
    ).flatten()
}

/// Subtitles that are not closed captions (their title carries no `(CC)`
/// mark) are flagged forced.
pub open spec fn forced_args(s: Seq<TrackMeta>) -> Seq<Seq<char>> {
    Seq::new(
        s.len(),
        |i: int|
            if !has_infix(s[i].title@, "(CC)"@) {
                seq!["-disposition:s:s:"@ + dec(i as nat), "forced"@]
            } else {
                Seq::empty()
            },
    ).flatten()
}

pub open spec fn is_copy_flag(a: Seq<char>) -> bool {
    a == "-c:v"@ || a == "-c:a"@
}

/// One preset taken onto the kept ones: a `copy` right after a stream-copy
/// flag removes the flag, and neither is kept.
pub open spec fn strip_step(kept: Seq<Seq<char>>, t: Seq<char>) -> Seq<Seq<char>> {
    if t == "copy"@ && kept.len() > 0 && is_copy_flag(kept.last()) {
        kept.drop_last()
    } else {
        kept.push(t)
    }
}

/// The presets without their stream-copy codec pairs, also those that come
/// together once an inner pair is gone.
pub open spec fn strip_copy(p: Seq<Seq<char>>) -> Seq<Seq<char>>
    decreases p.len(),
{
    if p.len() == 0 {
        p
    } else {
        strip_step(strip_copy(p.drop_last()), p.last())
    }
}

/// No stream-copy flag is directly followed by `copy`.
pub open spec fn no_copy_pair(p: Seq<Seq<char>>) -> bool {
    forall|i: int| 0 <= i < p.len() - 1 ==> !(is_copy_flag(#[trigger] p[i]) && p[i + 1] == "copy"@)
}

/// Stripping leaves no stream-copy pair behind.
pub proof fn lemma_strip_copy_clean(p: Seq<Seq<char>>)
    ensures
        no_copy_pair(strip_copy(p)),
    decreases p.len(),
{
    if p.len() > 0 {
        lemma_strip_copy_clean(p.drop_last());
        let k = strip_copy(p.drop_last());
        let r = strip_copy(p);
        let t = p.last();
        if t == "copy"@ && k.len() > 0 && is_copy_flag(k.last()) {
            assert forall|i: int| 0 <= i < r.len() - 1 implies !(is_copy_flag(#[trigger] r[i])
                && r[i + 1] == "copy"@) by {
                assert(r[i] == k[i] && r[i + 1] == k[i + 1]);
            }
        } else {
            assert forall|i: int| 0 <= i < r.len() - 1 implies !(is_copy_flag(#[trigger] r[i])
                && r[i + 1] == "copy"@) by {
                assert(r[i] == k[i]);
                if i + 1 < k.len() {
                    assert(r[i + 1] == k[i + 1]);
                }
            }
        }
    }
}

pub open spec fn escape_char(c: char) -> Seq<char> {
    if c == '\\' {
        seq!['\\', '\\']
    } else if c == ':' {
        seq!['\\', ':']
    } else {
        seq![c]
    }
}

/// A path with backslashes and colons escaped for the subtitle filter.
pub open spec fn escape_path(p: Seq<char>) -> Seq<char>
    decreases p.len(),
{
    if p.len() == 0 {
        p
    } else {
        escape_char(p[0]) + escape_path(p.drop_first())
    }
}

pub open spec fn filter_path(p: Seq<char>, windows: bool) -> Seq<char> {
    if windows {
        escape_path(p)
    } else {
        p
    }
}

/// The output presets, adjusted for the default subtitle.
pub open spec fn final_output_presets(inp: MuxInputs, s: MuxSettings) -> Seq<Seq<char>> {
    let p = strs(s.output_presets@);
    match default_position(inp, s) {
        None => p,
        Some(pos) => if soft_subs(s) {
            if s.container@ == "mov"@ || s.container@ == "mp4"@ {
                p + seq!["-movflags"@, "faststart"@, "-c:s"@, "mov_text"@]
            } else {
                p
            }
        } else {
            strip_copy(p) + seq![
                "-vf"@,
                "ass='"@ + filter_path(inp.subtitles@[pos as int].path@, s.windows) + "'"@,
            ]
        },
    }
}

/// Whether a path names a directory before its last component: it is
/// absolute, or a `/` comes before some other character.
pub open spec fn has_dir_part(p: Seq<char>) -> bool {
    (p.len() > 0 && p[0] == '/') || exists|i: int, j: int|
        0 <= i < j < p.len() && #[trigger] p[i] == '/' && #[trigger] p[j] != '/'
}

/// A bare file name is written with a current-directory prefix, except on
/// Windows and for standard output.
pub open spec fn destination_arg(dst: Seq<char>, windows: bool) -> Seq<char> {
    if !windows && !has_dir_part(dst) && dst != "-"@ {
        "./"@ + dst
    } else {
        dst
    }
}

pub open spec fn opt_pair(c: bool, a: Seq<char>, b: Seq<char>) -> Seq<Seq<char>> {
    if c {
        seq![a, b]
    } else {
        Seq::empty()
    }
}

/// Header, presets, inputs and stream maps.
pub open spec fn input_section(inp: MuxInputs, s: MuxSettings) -> Seq<Seq<char>> {
    let soft = soft_subs(s);
    let nv = inp.videos@.len();
    let na = inp.audios@.len();
    let subs_in = if soft {
        inp.subtitles@.len()
    } else {
        0
    };
    seq!["-y"@, "-hide_banner"@, "-vstats_file"@, inp.stats_path@] + strs(s.input_presets@)
        + input_args(paths(inp.videos@)) + input_args(paths(inp.audios@)) + (if soft {
        input_args(paths(inp.subtitles@))
    } else {
        Seq::empty()
    }) + opt_pair(inp.chapters is Some, "-i"@, inp.chapters->0@) + map_args(nv, 0) + map_args(
        na,
        nv,
    ) + map_args(subs_in, nv + na) + opt_pair(
        inp.chapters is Some,
        "-map_metadata"@,
        dec(nv + na + subs_in),
    )
}

/// Font attachments and per-stream metadata.
pub open spec fn metadata_section(inp: MuxInputs, s: MuxSettings) -> Seq<Seq<char>> {
    attach_args(strs(inp.fonts@)) + video_metadata(inp.videos@) + audio_metadata(
        inp.audios@,
        s.audio_language_map@,
    ) + font_metadata(inp.fonts@.len()) + (if soft_subs(s) {
        subtitle_metadata(inp.subtitles@, s.subtitle_language_map@)
    } else {
        Seq::empty()
    })
}

/// Threads, dispositions (only where subtitles are streams of their own)
/// and the pixel format.
pub open spec fn disposition_section(inp: MuxInputs, s: MuxSettings) -> Seq<Seq<char>> {
    opt_pair(!s.preset_custom && s.threads is Some, "-threads"@, dec(s.threads->0 as nat))
        + opt_pair(
        soft_subs(s) && default_position(inp, s) is Some,
        "-disposition:s:s:"@ + dec(default_position(inp, s)->0),
        "default"@,
    ) + (if soft_subs(s) {
        forced_args(inp.subtitles@)
    } else {
        Seq::empty()
    }) + seq!["-pix_fmt"@, "yuv420p"@]
}

/// Output presets, format and destination.
pub open spec fn output_section(inp: MuxInputs, s: MuxSettings) -> Seq<Seq<char>> {
    final_output_presets(inp, s) + opt_pair(s.output_format is Some, "-f"@, s.output_format->0@)
        + seq![destination_arg(inp.destination@, s.windows)]
}

/// With subtitles burnt in, the output presets hold no stream-copy pair:
/// copying streams cannot go with a filter.
pub proof fn lemma_burn_in_drops_copy(inp: MuxInputs, s: MuxSettings)
    requires
        !soft_subs(s),
        default_position(inp, s) is Some,
    ensures
        no_copy_pair(final_output_presets(inp, s)),
{
    let p = strip_copy(strs(s.output_presets@));
    lemma_strip_copy_clean(strs(s.output_presets@));
    let f = final_output_presets(inp, s);
    reveal_strlit("-vf");
    reveal_strlit("copy");
    assert("-vf"@ != "copy"@) by {
        assert("-vf"@[0] != "copy"@[0]);
    }
    assert(f.len() == p.len() + 2);
    assert forall|i: int| 0 <= i < f.len() - 1 implies !(is_copy_flag(#[trigger] f[i])
        && f[i + 1] == "copy"@) by {
        if i + 1 < p.len() {
            assert(f[i] == p[i] && f[i + 1] == p[i + 1]);
        } else if i + 1 == p.len() {
            assert(f[i + 1] == "-vf"@);
        } else {
            assert(f[i] == "-vf"@);
            reveal_strlit("-c:v");
            reveal_strlit("-c:a");
            assert("-vf"@ != "-c:v"@) by {
                assert("-vf"@[1] != "-c:v"@[1]);
            }
            assert("-vf"@ != "-c:a"@) by {
                assert("-vf"@[1] != "-c:a"@[1]);
            }
        }
    }
}

/// The whole argument list, section by section.
pub open spec fn mux_args(inp: MuxInputs, s: MuxSettings) -> Seq<Seq<char>> {
    input_section(inp, s) + metadata_section(inp, s) + disposition_section(inp, s)
        + output_section(inp, s)
}

fn text(s: &str) -> (r: String)
    ensures
        r@ == s@,
{
    String::from_str(s)
}

fn push_arg(out: &mut Vec<String>, a: String)
    ensures
        strs(final(out)@) == strs(old(out)@).push(a@),
{
    out.push(a);
    assert(strs(out@) =~= strs(old(out)@).push(a@));
}

fn push_pair(out: &mut Vec<String>, a: String, b: String)
    ensures
        strs(final(out)@) == strs(old(out)@) + seq![a@, b@],
{
    push_arg(out, a);
    push_arg(out, b);
    assert(strs(out@) =~= strs(old(out)@) + seq![a@, b@]);
}

/// `prefix` followed by the decimal digits of `n`.
fn numbered(prefix: &str, n: u64) -> (r: String)
    ensures
        r@ == prefix@ + dec(n as nat),
{
    let mut t = text(prefix);
    push_decimal(&mut t, n);
    t
}

proof fn lemma_new_push<A>(n: nat, f: spec_fn(int) -> Seq<A>)
    ensures
        Seq::new(n + 1, f).flatten() == Seq::new(n, f).flatten() + f(n as int),
{
    assert(Seq::new(n + 1, f) =~= Seq::new(n, f).push(f(n as int)));
    lemma_flatten_push(Seq::new(n, f), f(n as int));
}

proof fn lemma_new_empty<A>(f: spec_fn(int) -> Seq<A>)
    ensures
        Seq::new(0, f).flatten() == Seq::<A>::empty(),
{
    assert(Seq::new(0, f) =~= Seq::<Seq<A>>::empty());
}

fn push_strings(out: &mut Vec<String>, v: &Vec<String>)
    ensures
        strs(final(out)@) == strs(old(out)@) + strs(v@),
{
    let mut i: usize = 0;
    while i < v.len()
        invariant
            i <= v@.len(),
            strs(out@) == strs(old(out)@) + strs(v@.subrange(0, i as int)),
        decreases v@.len() - i,
    {
        push_arg(out, v[i].clone());
        assert(strs(v@.subrange(0, i + 1)) =~= strs(v@.subrange(0, i as int)).push(v@[i as int]@));
        i = i + 1;
    }
    assert(v@.subrange(0, i as int) =~= v@);
}

fn push_inputs(out: &mut Vec<String>, ts: &Vec<TrackMeta>)
    ensures
        strs(final(out)@) == strs(old(out)@) + input_args(paths(ts@)),
{
    let ghost ps = paths(ts@);
    let ghost f = |i: int| seq!["-i"@, ps[i]];
    proof {
        lemma_new_empty(f);
    }
    let mut i: usize = 0;
    while i < ts.len()
        invariant
            i <= ts@.len(),
            ps == paths(ts@),
            f == (|i: int| seq!["-i"@, ps[i]]),
            strs(out@) == strs(old(out)@) + Seq::new(i as nat, f).flatten(),
        decreases ts@.len() - i,
    {
        push_pair(out, text("-i"), ts[i].path.clone());
        proof {
            lemma_new_push(i as nat, f);
        }
        i = i + 1;
    }
    assert(Seq::new(ts@.len(), f) =~= Seq::new(ps.len(), |i: int| seq!["-i"@, ps[i]]));
}

fn push_maps(out: &mut Vec<String>, n: u64, offset: u64)
    requires
        n + offset <= u64::MAX,
    ensures
        strs(final(out)@) == strs(old(out)@) + map_args(n as nat, offset as nat),
{
    let ghost f = |i: int| seq!["-map"@, dec((i + offset) as nat)];
    proof {
        lemma_new_empty(f);
    }
    let mut i: u64 = 0;
    while i < n
        invariant
            i <= n,
            n + offset <= u64::MAX,
            f == (|i: int| seq!["-map"@, dec((i + offset) as nat)]),
            strs(out@) == strs(old(out)@) + Seq::new(i as nat, f).flatten(),
        decreases n - i,
    {
        push_pair(out, text("-map"), decimal(i + offset));
        proof {
            lemma_new_push(i as nat, f);
        }
        i = i + 1;
    }
}

fn push_attachments(out: &mut Vec<String>, fonts: &Vec<String>)
    ensures
        strs(final(out)@) == strs(old(out)@) + attach_args(strs(fonts@)),
{
    let ghost fs = strs(fonts@);
    let ghost f = |i: int| seq!["-attach"@, fs[i]];
    proof {
        lemma_new_empty(f);
    }
    let mut i: usize = 0;
    while i < fonts.len()
        invariant
            i <= fonts@.len(),
            fs == strs(fonts@),
            f == (|i: int| seq!["-attach"@, fs[i]]),
            strs(out@) == strs(old(out)@) + Seq::new(i as nat, f).flatten(),
        decreases fonts@.len() - i,
    {
        push_pair(out, text("-attach"), fonts[i].clone());
        proof {
            lemma_new_push(i as nat, f);
        }
        i = i + 1;
    }
}

fn push_video_metadata(out: &mut Vec<String>, vs: &Vec<TrackMeta>)
    ensures
        strs(final(out)@) == strs(old(out)@) + video_metadata(vs@),
{
    let ghost t = vs@;
    let ghost f = |i: int|
        seq![
            "-metadata:s:v:"@ + dec(i as nat),
            "title="@ + t[i].title@,
            "-metadata:s:v:"@ + dec(i as nat),
            "language="@,
        ];
    proof {
        lemma_new_empty(f);
    }
    let mut i: usize = 0;
    while i < vs.len()
        invariant
            i <= vs@.len(),
            t == vs@,
            f == (|i: int|
                seq![
                    "-metadata:s:v:"@ + dec(i as nat),
                    "title="@ + t[i].title@,
                    "-metadata:s:v:"@ + dec(i as nat),
                    "language="@,
                ]),
            strs(out@) == strs(old(out)@) + Seq::new(i as nat, f).flatten(),
        decreases vs@.len() - i,
    {
        let ghost before = strs(out@);
        push_pair(out, numbered("-metadata:s:v:", i as u64), joined("title=", vs[i].title.as_str()));
        push_pair(out, numbered("-metadata:s:v:", i as u64), text("language="));
        proof {
            lemma_new_push(i as nat, f);
            assert(strs(out@) =~= before + f(i as int));
        }
        i = i + 1;
    }
}

/// The language tag for `lang` under the map `m`.
fn output_language(m: &Vec<(String, String)>, lang: &String) -> (r: String)
    ensures
        r@ == out_lang(m@, lang@),
{
    let mut i: usize = 0;
    assert(m@.subrange(0, m@.len() as int) =~= m@);
    while i < m.len()
        invariant
            i <= m@.len(),
            out_lang(m@, lang@) == out_lang(m@.subrange(i as int, m@.len() as int), lang@),
        decreases m@.len() - i,
    {
        if same_chars(m[i].0.as_str(), lang.as_str()) {
            return m[i].1.clone();
        }
        assert(m@.subrange(i as int, m@.len() as int).drop_first() =~= m@.subrange(
            i + 1,
            m@.len() as int,
        ));
        i = i + 1;
    }
    assert(m@.subrange(i as int, m@.len() as int).len() == 0);
    lang.clone()
}

fn push_stream_metadata(
    out: &mut Vec<String>,
    ts: &Vec<TrackMeta>,
    m: &Vec<(String, String)>,
    tag: &str,
    Ghost(f): Ghost<spec_fn(int) -> Seq<Seq<char>>>,
)
    requires
        forall|i: int|
            0 <= i < ts@.len() ==> #[trigger] f(i) == seq![
                tag@ + dec(i as nat),
                "language="@ + out_lang(m@, ts@[i].language@),
                tag@ + dec(i as nat),
                "title="@ + ts@[i].title@,
            ],
    ensures
        strs(final(out)@) == strs(old(out)@) + Seq::new(ts@.len(), f).flatten(),
{
    proof {
        lemma_new_empty(f);
    }
    let mut i: usize = 0;
    while i < ts.len()
        invariant
            i <= ts@.len(),
            forall|i: int|
                0 <= i < ts@.len() ==> #[trigger] f(i) == seq![
                    tag@ + dec(i as nat),
                    "language="@ + out_lang(m@, ts@[i].language@),
                    tag@ + dec(i as nat),
                    "title="@ + ts@[i].title@,
                ],
            strs(out@) == strs(old(out)@) + Seq::new(i as nat, f).flatten(),
        decreases ts@.len() - i,
    {
        let ghost before = strs(out@);
        let lang = output_language(m, &ts[i].language);
        push_pair(out, numbered(tag, i as u64), joined("language=", lang.as_str()));
        push_pair(out, numbered(tag, i as u64), joined("title=", ts[i].title.as_str()));
        proof {
            lemma_new_push(i as nat, f);
            assert(strs(out@) =~= before + f(i as int));
        }
        i = i + 1;
    }
}

fn push_font_metadata(out: &mut Vec<String>, n: usize)
    ensures
        strs(final(out)@) == strs(old(out)@) + font_metadata(n as nat),
{
    let ghost f = |i: int| seq!["-metadata:s:t:"@ + dec(i as nat), "mimetype=font/woff2"@];
    proof {
        lemma_new_empty(f);
    }
    let mut i: usize = 0;
    while i < n
        invariant
            i <= n,
            f == (|i: int| seq!["-metadata:s:t:"@ + dec(i as nat), "mimetype=font/woff2"@]),
            strs(out@) == strs(old(out)@) + Seq::new(i as nat, f).flatten(),
        decreases n - i,
    {
        push_pair(out, numbered("-metadata:s:t:", i as u64), text("mimetype=font/woff2"));
        proof {
            lemma_new_push(i as nat, f);
        }
        i = i + 1;
    }
}

fn push_forced(out: &mut Vec<String>, subs: &Vec<TrackMeta>)
    ensures
        strs(final(out)@) == strs(old(out)@) + forced_args(subs@),
{
    let ghost t = subs@;
    let ghost f = |i: int|
        if !has_infix(t[i].title@, "(CC)"@) {
            seq!["-disposition:s:s:"@ + dec(i as nat), "forced"@]
        } else {
            Seq::empty()
        };
    proof {
        lemma_new_empty(f);
    }
    let mut i: usize = 0;
    while i < subs.len()
        invariant
            i <= subs@.len(),
            t == subs@,
            f == (|i: int|
                if !has_infix(t[i].title@, "(CC)"@) {
                    seq!["-disposition:s:s:"@ + dec(i as nat), "forced"@]
                } else {
                    Seq::empty()
                }),
            strs(out@) == strs(old(out)@) + Seq::new(i as nat, f).flatten(),
        decreases subs@.len() - i,
    {
        let ghost before = strs(out@);
        if !contains_text(subs[i].title.as_str(), "(CC)") {
            push_pair(out, numbered("-disposition:s:s:", i as u64), text("forced"));
        }
        proof {
            lemma_new_push(i as nat, f);
            assert(strs(out@) =~= before + f(i as int));
        }
        i = i + 1;
    }
}

/// The first subtitle with the given language.
fn find_language(ts: &Vec<TrackMeta>, lang: &String) -> (r: Option<usize>)
    ensures
        match position_of(ts@, lang@) {
            Some(p) => r is Some && r->0 == p && p < ts@.len(),
            None => r is None,
        },
{
    let mut i: usize = 0;
    assert(ts@.subrange(0, ts@.len() as int) =~= ts@);
    while i < ts.len()
        invariant
            i <= ts@.len(),
            position_of(ts@, lang@) == match position_of(
                ts@.subrange(i as int, ts@.len() as int),
                lang@,
            ) {
                Some(p) => Some((p + i) as nat),
                None => None::<nat>,
            },
        decreases ts@.len() - i,
    {
        if same_chars(ts[i].language.as_str(), lang.as_str()) {
            return Some(i);
        }
        assert(ts@.subrange(i as int, ts@.len() as int).drop_first() =~= ts@.subrange(
            i + 1,
            ts@.len() as int,
        ));
        i = i + 1;
    }
    None
}

fn is_flag_text(t: &String) -> (r: bool)
    ensures
        r == is_copy_flag(t@),
{
    same_chars(t.as_str(), "-c:v") || same_chars(t.as_str(), "-c:a")
}

fn strip_copy_presets(p: &Vec<String>) -> (r: Vec<String>)
    ensures
        strs(r@) == strip_copy(strs(p@)),
        no_copy_pair(strs(r@)),
{
    let mut out: Vec<String> = Vec::new();
    let mut i: usize = 0;
    assert(strs(p@).subrange(0, 0) =~= Seq::<Seq<char>>::empty());
    assert(strs(out@) =~= Seq::<Seq<char>>::empty());
    while i < p.len()
        invariant
            i <= p@.len(),
            strs(out@) == strip_copy(strs(p@).subrange(0, i as int)),
        decreases p@.len() - i,
    {
        let ghost kept = strs(out@);
        assert(strs(p@).subrange(0, i + 1).drop_last() =~= strs(p@).subrange(0, i as int));
        let n = out.len();
        if same_chars(p[i].as_str(), "copy") && n > 0 && is_flag_text(&out[n - 1]) {
            out.pop();
            assert(strs(out@) =~= kept.drop_last());
        } else {
            push_arg(&mut out, p[i].clone());
        }
        i = i + 1;
    }
    assert(strs(p@).subrange(0, i as int) =~= strs(p@));
    proof {
        lemma_strip_copy_clean(strs(p@));
    }
    out
}

fn escaped_path(p: &str) -> (r: String)
    ensures
        r@ == escape_path(p@),
{
    let n = p.unicode_len();
    let mut out = String::new();
    let mut i: usize = 0;
    assert(p@.subrange(0, n as int) =~= p@);
    assert(out@ + escape_path(p@) =~= escape_path(p@));
    while i < n
        invariant
            n == p@.len(),
            i <= n,
            escape_path(p@) == out@ + escape_path(p@.subrange(i as int, n as int)),
        decreases n - i,
    {
        let c = p.get_char(i);
        let ghost before = out@;
        if c == '\\' {
            push_char(&mut out, '\\');
            push_char(&mut out, '\\');
        } else if c == ':' {
            push_char(&mut out, '\\');
            push_char(&mut out, ':');
        } else {
            push_char(&mut out, c);
        }
        proof {
            let rest = p@.subrange(i as int, n as int);
            assert(rest.drop_first() =~= p@.subrange(i + 1, n as int));
            assert(out@ =~= before + escape_char(c));
            assert(out@ + escape_path(p@.subrange(i + 1, n as int)) =~= before + escape_path(rest));
        }
        i = i + 1;
    }
    assert(p@.subrange(i as int, n as int) =~= Seq::<char>::empty());
    assert(out@ + Seq::<char>::empty() =~= out@);
    out
}

fn dir_part(s: &str) -> (r: bool)
    ensures
        r == has_dir_part(s@),
{
    let n = s.unicode_len();
    if n == 0 {
        return false;
    }
    if s.get_char(0) == '/' {
        return true;
    }
    let mut seen = false;
    let mut i: usize = 0;
    while i < n
        invariant
            n == s@.len(),
            n > 0,
            s@[0] != '/',
            i <= n,
            seen == exists|k: int| 0 <= k < i && s@[k] == '/',
            forall|a: int, b: int| 0 <= a < b < i && s@[a] == '/' ==> s@[b] == '/',
        decreases n - i,
    {
        let c = s.get_char(i);
        if c != '/' && seen {
            let ghost k = choose|k: int| 0 <= k < i && s@[k] == '/';
            assert(s@[k] == '/' && s@[i as int] != '/');
            return true;
        }
        if c == '/' {
            seen = true;
        }
        i = i + 1;
    }
    assert(!has_dir_part(s@)) by {
        if exists|a: int, b: int| 0 <= a < b < n && #[trigger] s@[a] == '/' && #[trigger] s@[b] != '/' {
            let (a, b) = choose|a: int, b: int| 0 <= a < b < n && #[trigger] s@[a] == '/' && #[trigger] s@[b] != '/';
            assert(s@[a] == '/');
        }
    }
    false
}

fn container_is(s: &MuxSettings, name: &str) -> (r: bool)
    ensures
        r == (s.container@ == name@),
{
    same_chars(s.container.as_str(), name)
}

fn is_soft(s: &MuxSettings) -> (r: bool)
    ensures
        r == soft_subs(*s),
{
    !s.force_hardsub && (container_is(s, "mkv") || container_is(s, "mov") || container_is(s, "mp4"))
}

#[verifier::rlimit(60)]
fn push_input_section(out: &mut Vec<String>, inp: &MuxInputs, s: &MuxSettings)
    requires
        inp.videos@.len() + inp.audios@.len() + inp.subtitles@.len() <= u64::MAX,
    ensures
        strs(final(out)@) == strs(old(out)@) + input_section(*inp, *s),
{
    let soft = is_soft(s);
    let nv = inp.videos.len() as u64;
    let na = inp.audios.len() as u64;
    let subs_in: u64 = if soft {
        inp.subtitles.len() as u64
    } else {
        0
    };
    let ghost start = strs(out@);
    push_pair(out, text("-y"), text("-hide_banner"));
    push_pair(out, text("-vstats_file"), inp.stats_path.clone());
    let ghost mark_1 = strs(out@);
    push_strings(out, &s.input_presets);
    push_inputs(out, &inp.videos);
    push_inputs(out, &inp.audios);
    if soft {
        push_inputs(out, &inp.subtitles);
    }
    if let Some(ch) = &inp.chapters {
        push_pair(out, text("-i"), ch.clone());
    }
    push_maps(out, nv, 0);
    push_maps(out, na, nv);
    push_maps(out, subs_in, nv + na);
    if inp.chapters.is_some() {
        push_pair(out, text("-map_metadata"), decimal(nv + na + subs_in));
    }
    proof {
        assert(mark_1 =~= start + seq!["-y"@, "-hide_banner"@, "-vstats_file"@, inp.stats_path@]);
        assert(strs(out@) =~= start + input_section(*inp, *s));
    }
}

fn push_metadata_section(out: &mut Vec<String>, inp: &MuxInputs, s: &MuxSettings)
    ensures
        strs(final(out)@) == strs(old(out)@) + metadata_section(*inp, *s),
{
    let soft = is_soft(s);
    let ghost start = strs(out@);
    push_attachments(out, &inp.fonts);
    push_video_metadata(out, &inp.videos);
    let ghost fa = |i: int|
        seq![
            "-metadata:s:a:"@ + dec(i as nat),
            "language="@ + out_lang(s.audio_language_map@, inp.audios@[i].language@),
            "-metadata:s:a:"@ + dec(i as nat),
            "title="@ + inp.audios@[i].title@,
        ];
    push_stream_metadata(out, &inp.audios, &s.audio_language_map, "-metadata:s:a:", Ghost(fa));
    assert(Seq::new(inp.audios@.len(), fa) =~= Seq::new(
        inp.audios@.len(),
        |i: int|
            seq![
                "-metadata:s:a:"@ + dec(i as nat),
                "language="@ + out_lang(s.audio_language_map@, inp.audios@[i].language@),
                "-metadata:s:a:"@ + dec(i as nat),
                "title="@ + inp.audios@[i].title@,
            ],
    ));
    push_font_metadata(out, inp.fonts.len());
    if soft {
        let ghost fs = |i: int|
            seq![
                "-metadata:s:s:"@ + dec(i as nat),
                "language="@ + out_lang(s.subtitle_language_map@, inp.subtitles@[i].language@),
                "-metadata:s:s:"@ + dec(i as nat),
                "title="@ + inp.subtitles@[i].title@,
            ];
        push_stream_metadata(out, &inp.subtitles, &s.subtitle_language_map, "-metadata:s:s:", Ghost(fs));
        assert(Seq::new(inp.subtitles@.len(), fs) =~= Seq::new(
            inp.subtitles@.len(),
            |i: int|
                seq![
                    "-metadata:s:s:"@ + dec(i as nat),
                    "language="@ + out_lang(s.subtitle_language_map@, inp.subtitles@[i].language@),
                    "-metadata:s:s:"@ + dec(i as nat),
                    "title="@ + inp.subtitles@[i].title@,
                ],
        ));
    }
    assert(strs(out@) =~= start + metadata_section(*inp, *s));
}

fn default_subtitle_position(inp: &MuxInputs, s: &MuxSettings) -> (r: Option<usize>)
    ensures
        match default_position(*inp, *s) {
            Some(p) => r is Some && r->0 == p && p < inp.subtitles@.len(),
            None => r is None,
        },
{
    match &s.default_subtitle {
        Some(l) => find_language(&inp.subtitles, l),
        None => None,
    }
}

fn push_disposition_section(out: &mut Vec<String>, inp: &MuxInputs, s: &MuxSettings)
    ensures
        strs(final(out)@) == strs(old(out)@) + disposition_section(*inp, *s),
{
    let soft = is_soft(s);
    let ghost start = strs(out@);
    if !s.preset_custom {
        if let Some(t) = s.threads {
            push_pair(out, text("-threads"), decimal(t));
        }
    }
    let ghost mark_1 = strs(out@);
    assert(mark_1 =~= start + opt_pair(!s.preset_custom && s.threads is Some, "-threads"@, dec(s.threads->0 as nat)));
    let position = default_subtitle_position(inp, s);
    if soft {
        if let Some(p) = position {
            push_pair(out, numbered("-disposition:s:s:", p as u64), text("default"));
        }
    }
    let ghost mark_2 = strs(out@);
    assert(mark_2 =~= mark_1 + opt_pair(
        soft_subs(*s) && default_position(*inp, *s) is Some,
        "-disposition:s:s:"@ + dec(default_position(*inp, *s)->0),
        "default"@,
    ));
    if soft {
        push_forced(out, &inp.subtitles);
    }
    let ghost mark_3 = strs(out@);
    push_pair(out, text("-pix_fmt"), text("yuv420p"));
    assert(strs(out@) =~= mark_3 + seq!["-pix_fmt"@, "yuv420p"@]);
    assert(strs(out@) =~= start + disposition_section(*inp, *s));
}

fn push_output_section(out: &mut Vec<String>, inp: &MuxInputs, s: &MuxSettings)
    ensures
        strs(final(out)@) == strs(old(out)@) + output_section(*inp, *s),
{
    let soft = is_soft(s);
    let ghost start = strs(out@);
    let position = default_subtitle_position(inp, s);
    match position {
        None => {
            push_strings(out, &s.output_presets);
        },
        Some(p) => {
            if soft {
                push_strings(out, &s.output_presets);
                assert(strs(out@) == start + strs(s.output_presets@));
                if container_is(s, "mov") || container_is(s, "mp4") {
                    let ghost h = strs(out@);
                    push_pair(out, text("-movflags"), text("faststart"));
                    push_pair(out, text("-c:s"), text("mov_text"));
                    assert(strs(out@) =~= h + seq!["-movflags"@, "faststart"@, "-c:s"@, "mov_text"@]);
                }
            } else {
                let stripped = strip_copy_presets(&s.output_presets);
                push_strings(out, &stripped);
                let path = if s.windows {
                    escaped_path(inp.subtitles[p].path.as_str())
                } else {
                    inp.subtitles[p].path.clone()
                };
                let ghost h = strs(out@);
                assert(h == start + strip_copy(strs(s.output_presets@)));
                let mut filter = joined("ass='", path.as_str());
                filter.append("'");
                assert(path@ == filter_path(inp.subtitles@[p as int].path@, s.windows));
                assert(filter@ == "ass='"@ + filter_path(inp.subtitles@[p as int].path@, s.windows) + "'"@);
                push_pair(out, text("-vf"), filter);
                assert(strs(out@) =~= start + (strip_copy(strs(s.output_presets@)) + seq![
                    "-vf"@,
                    "ass='"@ + filter_path(inp.subtitles@[p as int].path@, s.windows) + "'"@,
                ]));
            }
        },
    }
    let ghost mark_1 = strs(out@);
    assert(mark_1 =~= start + final_output_presets(*inp, *s));
    if let Some(f) = &s.output_format {
        push_pair(out, text("-f"), f.clone());
    }
    let dst = if !s.windows && !dir_part(inp.destination.as_str()) && !same_chars(
        inp.destination.as_str(),
        "-",
    ) {
        joined("./", inp.destination.as_str())
    } else {
        inp.destination.clone()
    };
    push_arg(out, dst);
    assert(strs(out@) =~= start + output_section(*inp, *s));
}

/// The full argument list for the mux process.
pub fn build_mux_args(inp: &MuxInputs, s: &MuxSettings) -> (r: Vec<String>)
    requires
        inp.videos@.len() + inp.audios@.len() + inp.subtitles@.len() <= u64::MAX,
    ensures
        strs(r@) == mux_args(*inp, *s),
        !soft_subs(*s) && default_position(*inp, *s) is Some ==> no_copy_pair(
            final_output_presets(*inp, *s),
        ),
{
    proof {
        if !soft_subs(*s) && default_position(*inp, *s) is Some {
            lemma_burn_in_drops_copy(*inp, *s);
        }
    }
    let mut out: Vec<String> = Vec::new();
    assert(strs(out@) =~= Seq::<Seq<char>>::empty());
    push_input_section(&mut out, inp, s);
    push_metadata_section(&mut out, inp, s);
    push_disposition_section(&mut out, inp, s);
    push_output_section(&mut out, inp, s);
    assert(strs(out@) =~= mux_args(*inp, *s));
    out
}

} // verus!
