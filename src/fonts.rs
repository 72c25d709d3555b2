//! The fonts that subtitles may name, and which of them a document uses.
use crate::subtitles::{is_space, lines_view, split_document};
use vstd::prelude::*;

verus! {

/// Font name and asset file of every font the player ships.
pub open spec fn font_catalog() -> Seq<(Seq<char>, Seq<char>)> {
    seq![
        ("Adobe Arabic"@, "AdobeArabic-Bold.woff2"@),
        ("Andale Mono"@, "andalemo.woff2"@),
        ("Arial"@, "arial.woff2"@),
        ("Arial Black"@, "ariblk.woff2"@),
        ("Arial Bold"@, "arialbd.woff2"@),
        ("Arial Bold Italic"@, "arialbi.woff2"@),
        ("Arial Italic"@, "ariali.woff2"@),
        ("Arial Unicode MS"@, "arialuni.woff2"@),
        ("Comic Sans MS"@, "comic.woff2"@),
        ("Comic Sans MS Bold"@, "comicbd.woff2"@),
        ("Courier New"@, "cour.woff2"@),
        ("Courier New Bold"@, "courbd.woff2"@),
        ("Courier New Bold Italic"@, "courbi.woff2"@),
        ("Courier New Italic"@, "couri.woff2"@),
        ("DejaVu LGC Sans Mono"@, "DejaVuLGCSansMono.woff2"@),
        ("DejaVu LGC Sans Mono Bold"@, "DejaVuLGCSansMono-Bold.woff2"@),
        ("DejaVu LGC Sans Mono Bold Oblique"@, "DejaVuLGCSansMono-BoldOblique.woff2"@),
        ("DejaVu LGC Sans Mono Oblique"@, "DejaVuLGCSansMono-Oblique.woff2"@),
        ("DejaVu Sans"@, "DejaVuSans.woff2"@),
        ("DejaVu Sans Bold"@, "DejaVuSans-Bold.woff2"@),
        ("DejaVu Sans Bold Oblique"@, "DejaVuSans-BoldOblique.woff2"@),
        ("DejaVu Sans Condensed"@, "DejaVuSansCondensed.woff2"@),
        ("DejaVu Sans Condensed Bold"@, "DejaVuSansCondensed-Bold.woff2"@),
        ("DejaVu Sans Condensed Bold Oblique"@, "DejaVuSansCondensed-BoldOblique.woff2"@),
        ("DejaVu Sans Condensed Oblique"@, "DejaVuSansCondensed-Oblique.woff2"@),
        ("DejaVu Sans ExtraLight"@, "DejaVuSans-ExtraLight.woff2"@),
        ("DejaVu Sans Mono"@, "DejaVuSansMono.woff2"@),
        ("DejaVu Sans Mono Bold"@, "DejaVuSansMono-Bold.woff2"@),
        ("DejaVu Sans Mono Bold Oblique"@, "DejaVuSansMono-BoldOblique.woff2"@),
        ("DejaVu Sans Mono Oblique"@, "DejaVuSansMono-Oblique.woff2"@),
        ("DejaVu Sans Oblique"@, "DejaVuSans-Oblique.woff2"@),
        ("Gautami"@, "gautami.woff2"@),
        ("Georgia"@, "georgia.woff2"@),
        ("Georgia Bold"@, "georgiab.woff2"@),
        ("Georgia Bold Italic"@, "georgiaz.woff2"@),
        ("Georgia Italic"@, "georgiai.woff2"@),
        ("Impact"@, "impact.woff2"@),
        ("Mangal"@, "MANGAL.woff2"@),
        ("Meera Inimai"@, "MeeraInimai-Regular.woff2"@),
        ("Noto Sans Tamil"@, "NotoSansTamil.woff2"@),
        ("Noto Sans Telugu"@, "NotoSansTelegu.woff2"@),
        ("Noto Sans Thai"@, "NotoSansThai.woff2"@),
        ("Rubik"@, "Rubik-Regular.woff2"@),
        ("Rubik Black"@, "Rubik-Black.woff2"@),
        ("Rubik Black Italic"@, "Rubik-BlackItalic.woff2"@),
        ("Rubik Bold"@, "Rubik-Bold.woff2"@),
        ("Rubik Bold Italic"@, "Rubik-BoldItalic.woff2"@),
        ("Rubik Italic"@, "Rubik-Italic.woff2"@),
        ("Rubik Light"@, "Rubik-Light.woff2"@),
        ("Rubik Light Italic"@, "Rubik-LightItalic.woff2"@),
        ("Rubik Medium"@, "Rubik-Medium.woff2"@),
        ("Rubik Medium Italic"@, "Rubik-MediumItalic.woff2"@),
        ("Tahoma"@, "tahoma.woff2"@),
        ("Times New Roman"@, "times.woff2"@),
        ("Times New Roman Bold"@, "timesbd.woff2"@),
        ("Times New Roman Bold Italic"@, "timesbi.woff2"@),
        ("Times New Roman Italic"@, "timesi.woff2"@),
        ("Trebuchet MS"@, "trebuc.woff2"@),
        ("Trebuchet MS Bold"@, "trebucbd.woff2"@),
        ("Trebuchet MS Bold Italic"@, "trebucbi.woff2"@),
        ("Trebuchet MS Italic"@, "trebucit.woff2"@),
        ("Verdana"@, "verdana.woff2"@),
        ("Verdana Bold"@, "verdanab.woff2"@),
        ("Verdana Bold Italic"@, "verdanaz.woff2"@),
        ("Verdana Italic"@, "verdanai.woff2"@),
        ("Vrinda"@, "vrinda.woff2"@),
        ("Vrinda Bold"@, "vrindab.woff2"@),
        ("Webdings"@, "webdings.woff2"@),
    ]
}

pub open spec fn pairs_view(v: Seq<(String, String)>) -> Seq<(Seq<char>, Seq<char>)> {
    v.map_values(|p: (String, String)| (p.0@, p.1@))
}

/// The catalog as values.
pub fn catalog() -> (r: Vec<(String, String)>)
    ensures
        pairs_view(r@) == font_catalog(),
{
    let mut out: Vec<(String, String)> = Vec::new();
    out.push((String::from_str("Adobe Arabic"), String::from_str("AdobeArabic-Bold.woff2")));
    out.push((String::from_str("Andale Mono"), String::from_str("andalemo.woff2")));
    out.push((String::from_str("Arial"), String::from_str("arial.woff2")));
    out.push((String::from_str("Arial Black"), String::from_str("ariblk.woff2")));
    out.push((String::from_str("Arial Bold"), String::from_str("arialbd.woff2")));
    out.push((String::from_str("Arial Bold Italic"), String::from_str("arialbi.woff2")));
    out.push((String::from_str("Arial Italic"), String::from_str("ariali.woff2")));
    out.push((String::from_str("Arial Unicode MS"), String::from_str("arialuni.woff2")));
    out.push((String::from_str("Comic Sans MS"), String::from_str("comic.woff2")));
    out.push((String::from_str("Comic Sans MS Bold"), String::from_str("comicbd.woff2")));
    out.push((String::from_str("Courier New"), String::from_str("cour.woff2")));
    out.push((String::from_str("Courier New Bold"), String::from_str("courbd.woff2")));
    out.push((String::from_str("Courier New Bold Italic"), String::from_str("courbi.woff2")));
    out.push((String::from_str("Courier New Italic"), String::from_str("couri.woff2")));
    out.push((String::from_str("DejaVu LGC Sans Mono"), String::from_str("DejaVuLGCSansMono.woff2")));
    out.push((String::from_str("DejaVu LGC Sans Mono Bold"), String::from_str("DejaVuLGCSansMono-Bold.woff2")));
    out.push((String::from_str("DejaVu LGC Sans Mono Bold Oblique"), String::from_str("DejaVuLGCSansMono-BoldOblique.woff2")));
    out.push((String::from_str("DejaVu LGC Sans Mono Oblique"), String::from_str("DejaVuLGCSansMono-Oblique.woff2")));
    out.push((String::from_str("DejaVu Sans"), String::from_str("DejaVuSans.woff2")));
    out.push((String::from_str("DejaVu Sans Bold"), String::from_str("DejaVuSans-Bold.woff2")));
    out.push((String::from_str("DejaVu Sans Bold Oblique"), String::from_str("DejaVuSans-BoldOblique.woff2")));
    out.push((String::from_str("DejaVu Sans Condensed"), String::from_str("DejaVuSansCondensed.woff2")));
    out.push((String::from_str("DejaVu Sans Condensed Bold"), String::from_str("DejaVuSansCondensed-Bold.woff2")));
    out.push((String::from_str("DejaVu Sans Condensed Bold Oblique"), String::from_str("DejaVuSansCondensed-BoldOblique.woff2")));
    out.push((String::from_str("DejaVu Sans Condensed Oblique"), String::from_str("DejaVuSansCondensed-Oblique.woff2")));
    out.push((String::from_str("DejaVu Sans ExtraLight"), String::from_str("DejaVuSans-ExtraLight.woff2")));
    out.push((String::from_str("DejaVu Sans Mono"), String::from_str("DejaVuSansMono.woff2")));
    out.push((String::from_str("DejaVu Sans Mono Bold"), String::from_str("DejaVuSansMono-Bold.woff2")));
    out.push((String::from_str("DejaVu Sans Mono Bold Oblique"), String::from_str("DejaVuSansMono-BoldOblique.woff2")));
    out.push((String::from_str("DejaVu Sans Mono Oblique"), String::from_str("DejaVuSansMono-Oblique.woff2")));
    out.push((String::from_str("DejaVu Sans Oblique"), String::from_str("DejaVuSans-Oblique.woff2")));
    out.push((String::from_str("Gautami"), String::from_str("gautami.woff2")));
    out.push((String::from_str("Georgia"), String::from_str("georgia.woff2")));
    out.push((String::from_str("Georgia Bold"), String::from_str("georgiab.woff2")));
    out.push((String::from_str("Georgia Bold Italic"), String::from_str("georgiaz.woff2")));
    out.push((String::from_str("Georgia Italic"), String::from_str("georgiai.woff2")));
    out.push((String::from_str("Impact"), String::from_str("impact.woff2")));
    out.push((String::from_str("Mangal"), String::from_str("MANGAL.woff2")));
    out.push((String::from_str("Meera Inimai"), String::from_str("MeeraInimai-Regular.woff2")));
    out.push((String::from_str("Noto Sans Tamil"), String::from_str("NotoSansTamil.woff2")));
    out.push((String::from_str("Noto Sans Telugu"), String::from_str("NotoSansTelegu.woff2")));
    out.push((String::from_str("Noto Sans Thai"), String::from_str("NotoSansThai.woff2")));
    out.push((String::from_str("Rubik"), String::from_str("Rubik-Regular.woff2")));
    out.push((String::from_str("Rubik Black"), String::from_str("Rubik-Black.woff2")));
    out.push((String::from_str("Rubik Black Italic"), String::from_str("Rubik-BlackItalic.woff2")));
    out.push((String::from_str("Rubik Bold"), String::from_str("Rubik-Bold.woff2")));
    out.push((String::from_str("Rubik Bold Italic"), String::from_str("Rubik-BoldItalic.woff2")));
    out.push((String::from_str("Rubik Italic"), String::from_str("Rubik-Italic.woff2")));
    out.push((String::from_str("Rubik Light"), String::from_str("Rubik-Light.woff2")));
    out.push((String::from_str("Rubik Light Italic"), String::from_str("Rubik-LightItalic.woff2")));
    out.push((String::from_str("Rubik Medium"), String::from_str("Rubik-Medium.woff2")));
    out.push((String::from_str("Rubik Medium Italic"), String::from_str("Rubik-MediumItalic.woff2")));
    out.push((String::from_str("Tahoma"), String::from_str("tahoma.woff2")));
    out.push((String::from_str("Times New Roman"), String::from_str("times.woff2")));
    out.push((String::from_str("Times New Roman Bold"), String::from_str("timesbd.woff2")));
    out.push((String::from_str("Times New Roman Bold Italic"), String::from_str("timesbi.woff2")));
    out.push((String::from_str("Times New Roman Italic"), String::from_str("timesi.woff2")));
    out.push((String::from_str("Trebuchet MS"), String::from_str("trebuc.woff2")));
    out.push((String::from_str("Trebuchet MS Bold"), String::from_str("trebucbd.woff2")));
    out.push((String::from_str("Trebuchet MS Bold Italic"), String::from_str("trebucbi.woff2")));
    out.push((String::from_str("Trebuchet MS Italic"), String::from_str("trebucit.woff2")));
    out.push((String::from_str("Verdana"), String::from_str("verdana.woff2")));
    out.push((String::from_str("Verdana Bold"), String::from_str("verdanab.woff2")));
    out.push((String::from_str("Verdana Bold Italic"), String::from_str("verdanaz.woff2")));
    out.push((String::from_str("Verdana Italic"), String::from_str("verdanai.woff2")));
    out.push((String::from_str("Vrinda"), String::from_str("vrinda.woff2")));
    out.push((String::from_str("Vrinda Bold"), String::from_str("vrindab.woff2")));
    out.push((String::from_str("Webdings"), String::from_str("webdings.woff2")));
    assert(pairs_view(out@) =~= font_catalog());
    out
}

/// The asset file of the first catalog entry named `name`.
pub open spec fn font_file_of(cat: Seq<(Seq<char>, Seq<char>)>, name: Seq<char>) -> Option<Seq<char>>
    decreases cat.len(),
{
    if cat.len() == 0 {
        None
    } else if cat[0].0 == name {
        Some(cat[0].1)
    } else {
        font_file_of(cat.drop_first(), name)
    }
}

/// The asset file for a font name; `None` for a font not in the catalog.
pub fn font_file(name: &str) -> (r: Option<String>)
    ensures
        match font_file_of(font_catalog(), name@) {
            Some(f) => r is Some && r->0@ == f,
            None => r is None,
        },
{
    let cat = catalog();
    let ghost c = pairs_view(cat@);
    let mut i: usize = 0;
    assert(c.subrange(0, c.len() as int) =~= c);
    while i < cat.len()
        invariant
            i <= cat@.len(),
            c == pairs_view(cat@),
            c == font_catalog(),
            font_file_of(c, name@) == font_file_of(c.subrange(i as int, c.len() as int), name@),
        decreases cat@.len() - i,
    {
        if crate::text::same_chars(cat[i].0.as_str(), name) {
            return Some(cat[i].1.clone());
        }
        assert(c.subrange(i as int, c.len() as int).drop_first() =~= c.subrange(i + 1, c.len() as int));
        i = i + 1;
    }
    None
}

/// `Style:`
pub open spec fn style_tag() -> Seq<u8> {
    seq![83u8, 116, 121, 108, 101, 58]
}

/// The first comma at or after `i`, or the length.
pub open spec fn comma_from(l: Seq<u8>, i: int) -> int
    decreases l.len() - i,
{
    if i < 0 || i >= l.len() {
        l.len() as int
    } else if l[i] == 44 {
        i
    } else {
        comma_from(l, i + 1)
    }
}

/// The font of a style line: `Style:`, one white space, then the second
/// comma-separated field, which runs to the next comma or the end of the
/// line and is not empty.
pub open spec fn style_font(l: Seq<u8>) -> Option<Seq<u8>> {
    if l.len() >= 7 && l.subrange(0, 6) == style_tag() && is_space(l[6]) {
        let name_end = comma_from(l, 7);
        let font_end = comma_from(l, name_end + 1);
        if name_end < l.len() && name_end + 1 < font_end {
            Some(l.subrange(name_end + 1, font_end))
        } else {
            None
        }
    } else {
        None
    }
}

/// The distinct fonts of the first `n` lines, in order of first use.
pub open spec fn fonts_upto(ls: Seq<Seq<u8>>, n: int) -> Seq<Seq<u8>>
    decreases n,
{
    if n <= 0 {
        Seq::empty()
    } else {
        let a = fonts_upto(ls, n - 1);
        match style_font(ls[n - 1]) {
            Some(f) => if a.contains(f) {
                a
            } else {
                a.push(f)
            },
            None => a,
        }
    }
}

/// The distinct fonts a subtitle document names in its style lines.
pub open spec fn document_fonts(d: Seq<u8>) -> Seq<Seq<u8>> {
    let ls = crate::subtitles::split_lines(d);
    fonts_upto(ls, ls.len() as int)
}

fn comma_at_or_after(l: &[u8], i: usize) -> (r: usize)
    requires
        i <= l@.len(),
    ensures
        r == comma_from(l@, i as int),
        i <= r <= l@.len(),
{
    let mut j = i;
    while j < l.len() && l[j] != 44
        invariant
            i <= j <= l@.len(),
            comma_from(l@, i as int) == comma_from(l@, j as int),
        decreases l@.len() - j,
    {
        j = j + 1;
    }
    j
}


/// The font a style line names.
pub fn parse_style_font(l: &[u8]) -> (r: Option<Vec<u8>>)
    ensures
        match style_font(l@) {
            Some(f) => r is Some && r->0@ == f,
            None => r is None,
        },
{
    let n = l.len();
    if n < 7 || !(l[0] == 83 && l[1] == 116 && l[2] == 121 && l[3] == 108 && l[4] == 101 && l[5]
        == 58) {
        proof {
            if n >= 7 && l@.subrange(0, 6) == style_tag() {
                assert(l@.subrange(0, 6)[0] == 83);
                assert(l@.subrange(0, 6)[1] == 116);
                assert(l@.subrange(0, 6)[2] == 121);
                assert(l@.subrange(0, 6)[3] == 108);
                assert(l@.subrange(0, 6)[4] == 101);
                assert(l@.subrange(0, 6)[5] == 58);
            }
        }
        return None;
    }
    assert(l@.subrange(0, 6) =~= style_tag());
    let c = l[6];
    if !(c == 32 || c == 9 || c == 13 || c == 11 || c == 12) {
        return None;
    }
    let name_end = comma_at_or_after(l, 7);
    if name_end >= n {
        return None;
    }
    let font_end = comma_at_or_after(l, name_end + 1);
    if font_end <= name_end + 1 {
        return None;
    }
    let mut f: Vec<u8> = Vec::new();
    let mut k = name_end + 1;
    while k < font_end
        invariant
            name_end + 1 <= k <= font_end <= l@.len(),
            f@ == l@.subrange(name_end + 1, k as int),
        decreases font_end - k,
    {
        f.push(l[k]);
        assert(f@ =~= l@.subrange(name_end + 1, k + 1));
        k = k + 1;
    }
    Some(f)
}

fn same_bytes(a: &Vec<u8>, b: &Vec<u8>) -> (r: bool)
    ensures
        r == (a@ == b@),
{
    if a.len() != b.len() {
        return false;
    }
    let mut i: usize = 0;
    while i < a.len()
        invariant
            a@.len() == b@.len(),
            i <= a@.len(),
            forall|k: int| 0 <= k < i ==> a@[k] == b@[k],
        decreases a@.len() - i,
    {
        if a[i] != b[i] {
            return false;
        }
        i = i + 1;
    }
    assert(a@ =~= b@);
    true
}

/// Whether `acc` already holds `f`.
pub fn holds_font(acc: &Vec<Vec<u8>>, f: &Vec<u8>) -> (r: bool)
    ensures
        r == lines_view(acc@).contains(f@),
{
    let mut i: usize = 0;
    while i < acc.len()
        invariant
            i <= acc@.len(),
            forall|k: int| 0 <= k < i ==> acc@[k]@ != f@,
        decreases acc@.len() - i,
    {
        if same_bytes(&acc[i], f) {
            assert(lines_view(acc@)[i as int] == f@);
            return true;
        }
        i = i + 1;
    }
    assert forall|k: int| 0 <= k < lines_view(acc@).len() implies lines_view(acc@)[k] != f@ by {
        assert(lines_view(acc@)[k] == acc@[k]@);
    }
    false
}

/// The distinct fonts a subtitle document names, in order of first use.
pub fn subtitle_fonts(doc: &[u8]) -> (r: Vec<Vec<u8>>)
    ensures
        lines_view(r@) == document_fonts(doc@),
{
    let ls = split_document(doc);
    let ghost v = lines_view(ls@);
    let mut out: Vec<Vec<u8>> = Vec::new();
    let mut i: usize = 0;
    assert(lines_view(out@) =~= Seq::<Seq<u8>>::empty());
    while i < ls.len()
        invariant
            i <= ls@.len(),
            v == lines_view(ls@),
            lines_view(out@) == fonts_upto(v, i as int),
        decreases ls@.len() - i,
    {
        match parse_style_font(ls[i].as_slice()) {
            Some(f) => {
                if !holds_font(&out, &f) {
                    let ghost before = lines_view(out@);
                    let ghost fv = f@;
                    out.push(f);
                    assert(lines_view(out@) =~= before.push(fv));
                }
            },
            None => {},
        }
        i = i + 1;
    }
    out
}

/// `acc` followed by the fonts of `more` it does not hold yet, each once, in
/// order of first use.
pub open spec fn merged_fonts(acc: Seq<Seq<u8>>, more: Seq<Seq<u8>>) -> Seq<Seq<u8>>
    decreases more.len(),
{
    if more.len() == 0 {
        acc
    } else {
        let a = merged_fonts(acc, more.drop_last());
        if a.contains(more.last()) {
            a
        } else {
            a.push(more.last())
        }
    }
}

/// Adds the fonts of `more` that `acc` does not hold yet, in order.
pub fn merge_fonts(acc: &mut Vec<Vec<u8>>, more: Vec<Vec<u8>>)
    ensures
        lines_view(final(acc)@) == merged_fonts(lines_view(old(acc)@), lines_view(more@)),
{
    let ghost a0 = lines_view(acc@);
    let ghost m = lines_view(more@);
    let mut i: usize = 0;
    assert(m.subrange(0, 0) =~= Seq::<Seq<u8>>::empty());
    while i < more.len()
        invariant
            i <= more@.len(),
            m == lines_view(more@),
            lines_view(acc@) == merged_fonts(a0, m.subrange(0, i as int)),
        decreases more@.len() - i,
    {
        let ghost before = lines_view(acc@);
        let ghost fv = more@[i as int]@;
        assert(m.subrange(0, i + 1).drop_last() =~= m.subrange(0, i as int));
        if !holds_font(acc, &more[i]) {
            acc.push(more[i].clone());
            assert(lines_view(acc@) =~= before.push(fv));
        }
        i = i + 1;
    }
    assert(m.subrange(0, i as int) =~= m);
}

} // verus!
