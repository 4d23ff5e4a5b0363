//! The layout pipeline: append the truncation sentinel, segment into runs,
//! fit to the pixel budget, and report the consumed width and the ellipsis
//! offset. Also the cursor arithmetic the menu frame needs: where the text
//! cursor sits, and whether it is still inside the visible input.

use unicode_segmentation::UnicodeSegmentation;
use vstd::prelude::*;

use crate::fontset::FontSet;
use crate::segment::lemma_segment_compatible;
use crate::segment::lemma_segment_count;
use crate::segment::lemma_segment_shape;
use crate::segment::segment;
use crate::segment::spec_segment;
use crate::spool::char_count;
use crate::spool::runs_width;
use crate::spool::spec_elipsate;
use crate::spool::spec_fit;
use crate::spool::Run;
use crate::spool::Spool;
use crate::text::chars_vec;

verus! {

/// The sentinel appended before segmentation; three copies of it form the
/// ellipsis when the text is truncated.
pub const ELLIPSIS_CHAR: char = '.';

/// Which text a layout call is about, mirroring the menu's three text
/// sources.
#[derive(PartialEq, Debug)]
pub enum TextOption<'a> {
    Prompt,
    Input,
    Other(&'a String),
}

/// The string a text option denotes.
pub fn resolve_text_option<'a>(
    opt: &TextOption<'a>,
    prompt: &'a String,
    input: &'a String,
) -> (r: &'a String)
    ensures
        r@ == match *opt {
            TextOption::Prompt => prompt@,
            TextOption::Input => input@,
            TextOption::Other(s) => s@,
        },
{
    match opt {
        TextOption::Prompt => prompt,
        TextOption::Input => input,
        TextOption::Other(s) => *s,
    }
}

/// Measured width of a character sequence, each character under its own
/// resolved run font.
pub open spec fn text_width(fs: FontSet, s: Seq<char>) -> nat
    decreases s.len(),
{
    if s.len() == 0 {
        0
    } else {
        fs.spec_width_for(fs.spec_run_font(s[0]), s[0]) as nat + text_width(fs, s.drop_first())
    }
}

pub proof fn lemma_text_width_concat(fs: FontSet, a: Seq<char>, b: Seq<char>)
    ensures
        text_width(fs, a + b) == text_width(fs, a) + text_width(fs, b),
    decreases a.len(),
{
    if a.len() == 0 {
        assert(a + b =~= b);
    } else {
        assert((a + b).drop_first() =~= a.drop_first() + b);
        lemma_text_width_concat(fs, a.drop_first(), b);
    }
}

pub proof fn lemma_text_width_singleton(fs: FontSet, c: char)
    ensures
        text_width(fs, seq![c]) == fs.spec_width_for(fs.spec_run_font(c), c),
{
    assert(seq![c].drop_first() =~= Seq::<char>::empty());
    assert(text_width(fs, Seq::<char>::empty()) == 0);
}

/// Segmentation preserves measured width: the runs of a text weigh exactly
/// what its characters weigh.
pub proof fn lemma_segment_width(fs: FontSet, s: Seq<char>)
    ensures
        runs_width(fs, spec_segment(fs, s)) == text_width(fs, s),
    decreases s.len(),
{
    if s.len() > 0 {
        lemma_segment_width(fs, s.drop_last());
        let prev = spec_segment(fs, s.drop_last());
        let c = s.last();
        let rf = fs.spec_run_font(c);
        let seg = spec_segment(fs, s);
        assert(s =~= s.drop_last() + seq![c]);
        lemma_text_width_concat(fs, s.drop_last(), seq![c]);
        lemma_text_width_singleton(fs, c);
        if prev.len() > 0 && prev.last().font == rf {
            let ext = crate::spool::RunModel { text: prev.last().text.push(c), font: rf };
            assert(prev =~= prev.drop_last() + seq![prev.last()]);
            assert(seg =~= prev.drop_last() + seq![ext]);
            crate::spool::lemma_runs_width_concat(fs, prev.drop_last(), seq![prev.last()]);
            crate::spool::lemma_runs_width_concat(fs, prev.drop_last(), seq![ext]);
            crate::spool::lemma_runs_width_singleton(fs, prev.last());
            crate::spool::lemma_runs_width_singleton(fs, ext);
            assert(ext.text =~= prev.last().text + seq![c]);
            crate::spool::lemma_chars_width_concat(fs, rf, prev.last().text, seq![c]);
            crate::spool::lemma_chars_width_singleton(fs, rf, c);
        } else {
            let nr = crate::spool::RunModel { text: seq![c], font: rf };
            assert(seg =~= prev + seq![nr]);
            crate::spool::lemma_runs_width_concat(fs, prev, seq![nr]);
            crate::spool::lemma_runs_width_singleton(fs, nr);
            crate::spool::lemma_chars_width_singleton(fs, rf, c);
        }
    }
}

pub proof fn lemma_text_width_prefix_le(fs: FontSet, s: Seq<char>, k: int)
    requires
        0 <= k <= s.len(),
    ensures
        text_width(fs, s.subrange(0, k)) <= text_width(fs, s),
{
    assert(s =~= s.subrange(0, k) + s.subrange(k, s.len() as int));
    lemma_text_width_concat(fs, s.subrange(0, k), s.subrange(k, s.len() as int));
}

/// Measured width of a character vector.
pub fn measure_chars(fs: &FontSet, v: &Vec<char>) -> (r: u64)
    requires
        fs.wf(),
        text_width(*fs, v@) <= 0xFFFF_FFFF_FFFF_FFFF,
    ensures
        r as nat == text_width(*fs, v@),
{
    let mut acc: u64 = 0;
    let mut i: usize = 0;
    while i < v.len()
        invariant
            fs.wf(),
            text_width(*fs, v@) <= 0xFFFF_FFFF_FFFF_FFFF,
            i <= v@.len(),
            acc as nat == text_width(*fs, v@.subrange(0, i as int)),
        decreases v@.len() - i,
    {
        let c = v[i];
        let w = fs.char_advance(c);
        proof {
            assert(v@.subrange(0, i + 1) =~= v@.subrange(0, i as int) + seq![v@[i as int]]);
            lemma_text_width_concat(*fs, v@.subrange(0, i as int), seq![v@[i as int]]);
            lemma_text_width_singleton(*fs, v@[i as int]);
            lemma_text_width_prefix_le(*fs, v@, i + 1);
        }
        acc = acc + w as u64;
        i = i + 1;
    }
    proof {
        assert(v@.subrange(0, v@.len() as int) =~= v@);
    }
    acc
}

/// Lay one text out within `avail_w`: append the sentinel, segment, run
/// the ellipsis check, and (when rendering) shrink until the width fits.
/// Returns the runs to draw, their total measured width, and, if the text
/// was truncated, the pixel offset at which the ellipsis begins.
///
/// Fallback discovery is a separate pass: drive `FontSet::next_missing`
/// and `FontSet::apply_discovery` over the text (with `ELLIPSIS_CHAR`
/// appended) first, so every character already has its session font here.
pub fn layout_text(text: &Vec<char>, fs: &FontSet, avail_w: u32, render: bool) -> (r: (
    Vec<Run>,
    u64,
    Option<u64>,
))
    requires
        fs.wf(),
        text@.len() <= 0xFFFF_FFFD,
    ensures
        ({
            let full = text@.push(ELLIPSIS_CHAR);
            let seg = spec_segment(*fs, full);
            let fitted = if render {
                spec_fit(*fs, seg, false, avail_w)
            } else {
                spec_elipsate(*fs, seg, false, avail_w)
            };
            &&& r.0@.map_values(|x: Run| x@) == fitted.0
            &&& r.1 as nat == runs_width(*fs, fitted.0)
            &&& render ==> runs_width(*fs, fitted.0) <= avail_w
            &&& match r.2 {
                None => !fitted.1,
                Some(off) => fitted.1 && off as nat == (if fitted.0.len() <= 3 {
                    runs_width(*fs, fitted.0)
                } else {
                    runs_width(*fs, fitted.0.subrange(0, fitted.0.len() - 3))
                }),
            }
        }),
{
    let mut full: Vec<char> = Vec::new();
    let mut i: usize = 0;
    while i < text.len()
        invariant
            i <= text@.len(),
            full@ == text@.subrange(0, i as int),
        decreases text@.len() - i,
    {
        full.push(text[i]);
        proof {
            assert(full@ =~= text@.subrange(0, i + 1));
        }
        i = i + 1;
    }
    proof {
        assert(full@ =~= text@);
    }
    full.push(ELLIPSIS_CHAR);
    let nf = fs.fonts.len();
    proof {
        lemma_segment_shape(*fs, full@);
        lemma_segment_compatible(*fs, full@);
        lemma_segment_count(*fs, full@);
        if spec_segment(*fs, full@).len() == 0 {
            assert(char_count(spec_segment(*fs, full@)) == 0);
        }
    }
    let runs = segment(&full, fs);
    let mut spool = Spool::from_runs(runs);
    if render {
        spool.fit(fs, avail_w);
    } else {
        spool.elipsate(fs, avail_w);
    }
    let width = spool.width(fs);
    let elip = spool.elip_width(fs);
    let out = spool.into_iter();
    (out, width, elip)
}

/// A layout that did not truncate reproduces the text exactly: the
/// sentinel is discarded and the remaining runs concatenate back to the
/// input.
pub proof fn lemma_layout_keeps_untruncated_text(fs: FontSet, text: Seq<char>, w: u32)
    requires
        ({
            let seg = spec_segment(fs, text.push(ELLIPSIS_CHAR));
            !spec_fit(fs, seg, false, w).1
        }),
    ensures
        ({
            let seg = spec_segment(fs, text.push(ELLIPSIS_CHAR));
            crate::spool::concat_text(spec_fit(fs, seg, false, w).0) == text
        }),
{
    let full = text.push(ELLIPSIS_CHAR);
    let seg = spec_segment(fs, full);
    crate::segment::lemma_segment_reconstructs(fs, full);
    crate::segment::lemma_segment_count(fs, full);
    crate::segment::lemma_segment_shape(fs, full);
    assert(seg.len() > 0) by {
        if seg.len() == 0 {
            assert(char_count(seg) == 0);
        }
    }
    crate::spool::lemma_pop_props(fs, seg);
    let (rest, e) = crate::spool::spec_pop(seg);
    // the ellipsis flag stayed off, so the remaining text already fit and
    // the shrink pass left it alone
    assert(spec_fit(fs, seg, false, w).1 == spec_elipsate(fs, seg, false, w).1);
    assert(runs_width(fs, rest) <= w) by {
        if runs_width(fs, rest) > w {
            assert(spec_elipsate(fs, seg, false, w).1);
        }
    }
    assert(crate::spool::concat_text(rest) + e.text =~= full);
    let cr = crate::spool::concat_text(rest);
    assert(cr.len() == text.len());
    assert forall|i: int| 0 <= i < text.len() implies cr[i] == text[i] by {
        assert((cr + e.text)[i] == cr[i]);
        assert(full[i] == text[i]);
    }
    assert(cr =~= text);
}

/// The extended grapheme clusters of a character sequence, in order.
pub uninterp spec fn graphemes_of(s: Seq<char>) -> Seq<Seq<char>>;

/// The clusters joined back together.
pub open spec fn flatten_chars(gs: Seq<Seq<char>>) -> Seq<char>
    decreases gs.len(),
{
    if gs.len() == 0 {
        Seq::empty()
    } else {
        gs[0] + flatten_chars(gs.drop_first())
    }
}

pub proof fn lemma_flatten_concat(a: Seq<Seq<char>>, b: Seq<Seq<char>>)
    ensures
        flatten_chars(a + b) == flatten_chars(a) + flatten_chars(b),
    decreases a.len(),
{
    if a.len() == 0 {
        assert(a + b =~= b);
        assert(flatten_chars(a) + flatten_chars(b) =~= flatten_chars(b));
    } else {
        assert((a + b).drop_first() =~= a.drop_first() + b);
        lemma_flatten_concat(a.drop_first(), b);
        assert(flatten_chars(a + b) =~= flatten_chars(a) + flatten_chars(b));
    }
}

pub proof fn lemma_flatten_singleton(g: Seq<char>)
    ensures
        flatten_chars(seq![g]) == g,
{
    assert(seq![g].drop_first() =~= Seq::<Seq<char>>::empty());
    assert(flatten_chars(Seq::<Seq<char>>::empty()) =~= Seq::<char>::empty());
    assert(flatten_chars(seq![g]) =~= g);
}

/// Relies on unicode_segmentation's `str::graphemes` (extended clusters):
/// the clusters depend on the characters alone, are each non-empty, and
/// are substrings that concatenate back to the input.
#[verifier::external_body]
fn grapheme_clusters(s: &str) -> (r: Vec<String>)
    ensures
        r@.map_values(|g: String| g@) == graphemes_of(s@),
        flatten_chars(r@.map_values(|g: String| g@)) == s@,
        forall|i: int| 0 <= i < r@.len() ==> (#[trigger] r@[i])@.len() > 0,
{
    s.graphemes(true).map(|g| g.to_string()).collect()
}

/// The characters before the text cursor: the first `cursor` grapheme
/// clusters of the input (all of them when the cursor sits past the end).
pub open spec fn cursor_prefix(s: Seq<char>, cursor: int) -> Seq<char> {
    let gs = graphemes_of(s);
    if cursor <= gs.len() {
        flatten_chars(gs.subrange(0, cursor))
    } else {
        flatten_chars(gs)
    }
}

/// Pixel x-offset of the text cursor inside the input field: the measured
/// width of everything before the cursor, plus half the side padding,
/// less one pixel so the cursor hugs the preceding character.
pub fn cursor_offset(input: &str, cursor: usize, fs: &FontSet, lrpad: u32) -> (r: i64)
    requires
        fs.wf(),
        text_width(*fs, input@) <= 0x7FFF_FFFF,
        lrpad <= 0x7FFF_FFFF,
    ensures
        r == text_width(*fs, cursor_prefix(input@, cursor as int)) + (lrpad as int) / 2 - 1,
{
    let gs = grapheme_clusters(input);
    let ghost gm = graphemes_of(input@);
    let k = if cursor < gs.len() {
        cursor
    } else {
        gs.len()
    };
    proof {
        assert(gm.subrange(0, gm.len() as int) =~= gm);
    }
    let mut acc: u64 = 0;
    let mut i: usize = 0;
    while i < k
        invariant
            fs.wf(),
            k <= gs@.len(),
            gs@.map_values(|g: String| g@) == gm,
            flatten_chars(gm) == input@,
            text_width(*fs, input@) <= 0x7FFF_FFFF,
            i <= k,
            acc as nat == text_width(*fs, flatten_chars(gm.subrange(0, i as int))),
        decreases k - i,
    {
        let cv = chars_vec(gs[i].as_str());
        proof {
            assert(cv@ == gm[i as int]);
            assert(gm.subrange(0, i + 1) =~= gm.subrange(0, i as int) + seq![gm[i as int]]);
            lemma_flatten_concat(gm.subrange(0, i as int), seq![gm[i as int]]);
            lemma_flatten_singleton(gm[i as int]);
            assert(gm =~= gm.subrange(0, i + 1) + gm.subrange(i + 1, gm.len() as int));
            lemma_flatten_concat(gm.subrange(0, i + 1), gm.subrange(i + 1, gm.len() as int));
            lemma_text_width_concat(
                *fs,
                flatten_chars(gm.subrange(0, i + 1)),
                flatten_chars(gm.subrange(i + 1, gm.len() as int)),
            );
            lemma_text_width_concat(
                *fs,
                flatten_chars(gm.subrange(0, i as int)),
                flatten_chars(seq![gm[i as int]]),
            );
        }
        let cw = measure_chars(fs, &cv);
        acc = acc + cw;
        i = i + 1;
    }
    proof {
        assert(gm =~= gm.subrange(0, k as int) + gm.subrange(k as int, gm.len() as int));
        lemma_flatten_concat(gm.subrange(0, k as int), gm.subrange(k as int, gm.len() as int));
        lemma_text_width_concat(
            *fs,
            flatten_chars(gm.subrange(0, k as int)),
            flatten_chars(gm.subrange(k as int, gm.len() as int)),
        );
        if cursor < gs@.len() {
            assert(cursor_prefix(input@, cursor as int) == flatten_chars(
                gm.subrange(0, cursor as int),
            ));
        } else {
            assert(gm.subrange(0, gm.len() as int) =~= gm);
        }
    }
    acc as i64 + (lrpad / 2) as i64 - 1
}

/// Whether the cursor marker should be drawn: it must sit before the
/// ellipsis of a truncated input, or inside the padded field otherwise.
pub fn cursor_visible(curpos: i64, elip_off: Option<i64>, w: i64, lrpad: u32) -> (r: bool)
    requires
        -0x7FFF_FFFF <= curpos <= 0x7FFF_FFFF,
        match elip_off {
            Some(t) => -0x7FFF_FFFF <= t <= 0x7FFF_FFFF,
            None => true,
        },
        -0x7FFF_FFFF <= w <= 0x7FFF_FFFF,
        lrpad <= 0x7FFF_FFFF,
    ensures
        r == (curpos < match elip_off {
            Some(t) => t + (lrpad as int) / 2,
            None => w - (lrpad as int) / 2,
        }),
{
    match elip_off {
        Some(t) => curpos < t + (lrpad / 2) as i64,
        None => curpos < w - (lrpad / 2) as i64,
    }
}

/// Width granted to the input field: the whole remaining row when listing
/// vertically or when nothing matched; the input's own width capped to the
/// remaining row under overrun rendering; otherwise the configured width.
pub fn input_field_width(
    lines: u32,
    match_count: usize,
    matched: bool,
    total_w: i64,
    x: i64,
    render_overrun: bool,
    input_tw: i64,
    configured_w: i64,
) -> (r: i64)
    requires
        -0x7FFF_FFFF <= total_w <= 0x7FFF_FFFF,
        -0x7FFF_FFFF <= x <= 0x7FFF_FFFF,
    ensures
        r == (if lines > 0 || match_count == 0 || !matched {
            total_w - x
        } else if render_overrun {
            if input_tw < total_w - x {
                input_tw as int
            } else {
                total_w - x
            }
        } else {
            configured_w as int
        }),
{
    if lines > 0 || match_count == 0 || !matched {
        total_w - x
    } else if render_overrun {
        let rem = total_w - x;
        if input_tw < rem {
            input_tw
        } else {
            rem
        }
    } else {
        configured_w
    }
}

} // verus!
