//! The ordered set of loaded fonts and per-character font resolution.
//!
//! A font is modelled by the characters it can render together with the
//! advance width of each; the first font of the set is the primary font.
//! Characters no loaded font covers go through fallback discovery: the
//! caller asks the font-matching backend for a candidate and hands the
//! outcome back, and the set decides whether to append it (caching it for
//! the rest of the session) or to degrade the character to the primary font.

use vstd::prelude::*;

verus! {

/// A single renderable character of a font with its advance width in pixels.
#[derive(Clone, Copy, PartialEq, Eq, Structural, Debug)]
pub struct Glyph {
    pub ch: char,
    pub width: u32,
}

/// One loaded font: the characters it can render, its vertical metrics, and
/// the advance width of the box drawn for characters it cannot render.
#[derive(Debug)]
pub struct Font {
    pub glyphs: Vec<Glyph>,
    pub height: u32,
    pub ascent: u32,
    pub missing_width: u32,
}

impl Font {
    /// Each renderable character appears at most once.
    pub open spec fn wf(self) -> bool {
        forall|i: int, j: int|
            0 <= i < j < self.glyphs@.len() ==> (#[trigger] self.glyphs@[i]).ch != (
            #[trigger] self.glyphs@[j]).ch
    }

    /// Whether this font can render `c`.
    pub open spec fn spec_covers(self, c: char) -> bool {
        exists|i: int| 0 <= i < self.glyphs@.len() && (#[trigger] self.glyphs@[i]).ch == c
    }

    pub open spec fn glyph_index_of(self, c: char) -> int {
        choose|i: int| 0 <= i < self.glyphs@.len() && (#[trigger] self.glyphs@[i]).ch == c
    }

    /// Advance width of `c` in this font; the missing-glyph box width when
    /// the font cannot render it.
    pub open spec fn spec_char_width(self, c: char) -> u32 {
        if self.spec_covers(c) {
            self.glyphs@[self.glyph_index_of(c)].width
        } else {
            self.missing_width
        }
    }

    pub fn covers(&self, c: char) -> (r: bool)
        ensures
            r == self.spec_covers(c),
    {
        let mut i: usize = 0;
        while i < self.glyphs.len()
            invariant
                i <= self.glyphs@.len(),
                forall|j: int| 0 <= j < i ==> (#[trigger] self.glyphs@[j]).ch != c,
            decreases self.glyphs@.len() - i,
        {
            if self.glyphs[i].ch == c {
                return true;
            }
            i = i + 1;
        }
        false
    }

    pub fn char_width(&self, c: char) -> (r: u32)
        requires
            self.wf(),
        ensures
            r == self.spec_char_width(c),
    {
        let mut i: usize = 0;
        while i < self.glyphs.len()
            invariant
                self.wf(),
                i <= self.glyphs@.len(),
                forall|j: int| 0 <= j < i ==> (#[trigger] self.glyphs@[j]).ch != c,
            decreases self.glyphs@.len() - i,
        {
            if self.glyphs[i].ch == c {
                proof {
                    assert(self.spec_covers(c));
                    let k = self.glyph_index_of(c);
                    assert(self.glyphs@[k].ch == c);
                    assert(k == i);
                }
                return self.glyphs[i].width;
            }
            i = i + 1;
        }
        proof {
            assert(!self.spec_covers(c));
        }
        self.missing_width
    }
}

/// The font a glyph run is drawn with: a font of the set, or none at all, in
/// which case the primary font draws it (typically as a missing-glyph box).
#[derive(Clone, Copy, PartialEq, Eq, Structural, Debug)]
pub enum RunFont {
    Resolved(usize),
    Unsupported,
}

/// What the font-matching backend answered when asked for a fallback font:
/// a candidate font, no font at all, or the backend could not be queried.
pub enum DiscoveryOutcome {
    Matched(Font),
    NoMatch,
    Unavailable,
}

/// A layout failure. Resolution fails only when the font backend cannot be
/// queried at all; a character without a glyph is not an error.
#[derive(Clone, Copy, PartialEq, Eq, Structural, Debug)]
pub enum LayoutError {
    FontResolution,
}

/// First index at or after `i` of a font in `fonts` covering `c`.
pub open spec fn resolve_from(fonts: Seq<Font>, c: char, i: int) -> Option<usize>
    decreases fonts.len() - i,
{
    if i < 0 || i >= fonts.len() {
        None
    } else if fonts[i].spec_covers(c) {
        Some(i as usize)
    } else {
        resolve_from(fonts, c, i + 1)
    }
}

/// The ordered, append-only set of loaded fonts, plus the characters that
/// fallback discovery has already degraded to the primary font.
pub struct FontSet {
    pub fonts: Vec<Font>,
    pub degraded: Vec<char>,
}

impl FontSet {
    /// The set is never empty and each font is well formed.
    pub open spec fn wf(self) -> bool {
        &&& self.fonts@.len() >= 1
        &&& forall|i: int| 0 <= i < self.fonts@.len() ==> (#[trigger] self.fonts@[i]).wf()
    }

    /// Index of the first loaded font covering `c`, in insertion order.
    pub open spec fn spec_resolve(self, c: char) -> Option<usize> {
        resolve_from(self.fonts@, c, 0)
    }

    /// The font a run holding `c` is assigned: the first covering font;
    /// failing that, the primary font if discovery degraded `c` to it
    /// earlier; failing that, no font at all.
    pub open spec fn spec_run_font(self, c: char) -> RunFont {
        match self.spec_resolve(c) {
            Some(i) => RunFont::Resolved(i),
            None => if self.degraded@.contains(c) {
                RunFont::Resolved(0)
            } else {
                RunFont::Unsupported
            },
        }
    }

    /// Whether `c` would send layout to fallback discovery.
    pub open spec fn needs_discovery(self, c: char) -> bool {
        self.spec_resolve(c) is None && !self.degraded@.contains(c)
    }

    /// A run font referring into this set.
    pub open spec fn valid_run_font(self, rf: RunFont) -> bool {
        match rf {
            RunFont::Resolved(i) => i < self.fonts@.len(),
            RunFont::Unsupported => true,
        }
    }

    /// Index of the font that actually draws a run: `Unsupported` is drawn
    /// by the primary font.
    pub open spec fn render_index(self, rf: RunFont) -> int {
        match rf {
            RunFont::Resolved(i) => i as int,
            RunFont::Unsupported => 0,
        }
    }

    /// Advance width of `c` when drawn with run font `rf`.
    pub open spec fn spec_width_for(self, rf: RunFont, c: char) -> u32 {
        self.fonts@[self.render_index(rf)].spec_char_width(c)
    }

    pub fn new(primary: Font) -> (r: FontSet)
        requires
            primary.wf(),
        ensures
            r.wf(),
            r.fonts@ == seq![primary],
            r.degraded@ == Seq::<char>::empty(),
    {
        let mut fonts: Vec<Font> = Vec::new();
        fonts.push(primary);
        proof {
            assert(fonts@ =~= seq![primary]);
        }
        FontSet { fonts, degraded: Vec::new() }
    }

    pub fn resolve(&self, c: char) -> (r: Option<usize>)
        ensures
            r == self.spec_resolve(c),
    {
        let mut i: usize = 0;
        while i < self.fonts.len()
            invariant
                i <= self.fonts@.len(),
                resolve_from(self.fonts@, c, 0) == resolve_from(self.fonts@, c, i as int),
            decreases self.fonts@.len() - i,
        {
            if self.fonts[i].covers(c) {
                return Some(i);
            }
            i = i + 1;
        }
        None
    }

    /// Advance width of `c` drawn with run font `rf`.
    pub fn width_for(&self, rf: RunFont, c: char) -> (r: u32)
        requires
            self.wf(),
            self.valid_run_font(rf),
        ensures
            r == self.spec_width_for(rf, c),
    {
        let idx: usize = match rf {
            RunFont::Resolved(i) => i,
            RunFont::Unsupported => 0,
        };
        self.fonts[idx].char_width(c)
    }

    /// Advance width of `c` under its own resolved run font.
    pub fn char_advance(&self, c: char) -> (r: u32)
        requires
            self.wf(),
        ensures
            r == self.spec_width_for(self.spec_run_font(c), c),
    {
        let n = self.fonts.len();
        let rf = self.run_font(c);
        proof {
            if self.spec_resolve(c) is Some {
                lemma_resolve_some_properties(self.fonts@, c, 0);
            }
        }
        self.width_for(rf, c)
    }

    fn is_degraded(&self, c: char) -> (r: bool)
        ensures
            r == self.degraded@.contains(c),
    {
        let mut i: usize = 0;
        while i < self.degraded.len()
            invariant
                i <= self.degraded@.len(),
                forall|j: int| 0 <= j < i ==> self.degraded@[j] != c,
            decreases self.degraded@.len() - i,
        {
            if self.degraded[i] == c {
                proof {
                    assert(self.degraded@[i as int] == c);
                }
                return true;
            }
            i = i + 1;
        }
        false
    }

    pub fn run_font(&self, c: char) -> (r: RunFont)
        ensures
            r == self.spec_run_font(c),
    {
        match self.resolve(c) {
            Some(i) => RunFont::Resolved(i),
            None => {
                if self.is_degraded(c) {
                    RunFont::Resolved(0)
                } else {
                    RunFont::Unsupported
                }
            },
        }
    }

    /// First position at or after `start` in `text` whose character would
    /// send layout to fallback discovery.
    pub fn next_missing(&self, text: &Vec<char>, start: usize) -> (r: Option<usize>)
        ensures
            match r {
                Some(i) => start <= i < text@.len() && self.needs_discovery(text@[i as int])
                    && forall|j: int| start <= j < i ==> !self.needs_discovery(text@[j]),
                None => forall|j: int|
                    start <= j < text@.len() ==> !self.needs_discovery(text@[j]),
            },
    {
        let mut i: usize = start;
        while i < text.len()
            invariant
                start <= i,
                i <= text@.len() || i == start,
                forall|j: int| start <= j < i && j < text@.len() ==> !self.needs_discovery(
                    text@[j],
                ),
            decreases text@.len() - i,
        {
            let c = text[i];
            if self.resolve(c).is_none() && !self.is_degraded(c) {
                return Some(i);
            }
            i = i + 1;
        }
        None
    }

    /// Feed back the backend's answer to a fallback query for `c`.
    ///
    /// A matched font that really covers `c` is appended to the set (the
    /// session cache); a matched font that does not cover it degrades `c`
    /// to the primary font without polluting the cache; no match leaves `c`
    /// unsupported; an unreachable backend is the only error.
    pub fn apply_discovery(&mut self, c: char, outcome: DiscoveryOutcome) -> (r: Result<
        RunFont,
        LayoutError,
    >)
        requires
            old(self).wf(),
            old(self).spec_resolve(c) is None,
            outcome matches DiscoveryOutcome::Matched(f) ==> f.wf(),
        ensures
            final(self).wf(),
            final(self).fonts@.len() >= old(self).fonts@.len(),
            match outcome {
                DiscoveryOutcome::Matched(f) => {
                    if f.spec_covers(c) {
                        &&& r == Ok::<RunFont, LayoutError>(RunFont::Resolved(
                            old(self).fonts@.len() as usize,
                        ))
                        &&& final(self).fonts@ == old(self).fonts@.push(f)
                        &&& final(self).degraded@ == old(self).degraded@
                        &&& final(self).spec_resolve(c) == Some(old(self).fonts@.len() as usize)
                    } else {
                        &&& r == Ok::<RunFont, LayoutError>(RunFont::Resolved(0))
                        &&& final(self).fonts@ == old(self).fonts@
                        &&& final(self).degraded@ == old(self).degraded@.push(c)
                        &&& final(self).spec_run_font(c) == RunFont::Resolved(0)
                    }
                },
                DiscoveryOutcome::NoMatch => {
                    &&& r == Ok::<RunFont, LayoutError>(RunFont::Unsupported)
                    &&& final(self).fonts@ == old(self).fonts@
                    &&& final(self).degraded@ == old(self).degraded@
                },
                DiscoveryOutcome::Unavailable => {
                    &&& r == Err::<RunFont, LayoutError>(LayoutError::FontResolution)
                    &&& final(self).fonts@ == old(self).fonts@
                    &&& final(self).degraded@ == old(self).degraded@
                },
            },
    {
        match outcome {
            DiscoveryOutcome::Matched(f) => {
                if f.covers(c) {
                    let idx = self.fonts.len();
                    self.fonts.push(f);
                    proof {
                        lemma_resolve_append(old(self).fonts@, c, f);
                    }
                    Ok(RunFont::Resolved(idx))
                } else {
                    self.degraded.push(c);
                    proof {
                        assert(self.degraded@.contains(c)) by {
                            assert(self.degraded@[self.degraded@.len() - 1] == c);
                        }
                    }
                    Ok(RunFont::Resolved(0))
                }
            },
            DiscoveryOutcome::NoMatch => Ok(RunFont::Unsupported),
            DiscoveryOutcome::Unavailable => Err(LayoutError::FontResolution),
        }
    }
}

/// Fallback caching: discovering a covering fallback font appends exactly
/// one font to the set, and afterwards the character resolves to the
/// cached font, so no later request for it reaches discovery again.
pub proof fn lemma_discovery_caches(before: FontSet, after: FontSet, c: char, f: Font)
    requires
        before.spec_resolve(c) is None,
        f.spec_covers(c),
        after.fonts@ == before.fonts@.push(f),
        after.degraded@ == before.degraded@,
    ensures
        after.fonts@.len() == before.fonts@.len() + 1,
        after.spec_resolve(c) == Some(before.fonts@.len() as usize),
        !after.needs_discovery(c),
{
    lemma_resolve_append(before.fonts@, c, f);
}

/// Appending a font that covers `c` to a set where nothing covered `c`
/// makes `c` resolve to the appended font.
pub proof fn lemma_resolve_append(fonts: Seq<Font>, c: char, f: Font)
    requires
        resolve_from(fonts, c, 0) is None,
        f.spec_covers(c),
    ensures
        resolve_from(fonts.push(f), c, 0) == Some(fonts.len() as usize),
{
    lemma_resolve_append_from(fonts, c, f, 0);
}

proof fn lemma_resolve_append_from(fonts: Seq<Font>, c: char, f: Font, i: int)
    requires
        0 <= i <= fonts.len(),
        resolve_from(fonts, c, i) is None,
        f.spec_covers(c),
    ensures
        resolve_from(fonts.push(f), c, i) == Some(fonts.len() as usize),
    decreases fonts.len() - i,
{
    lemma_resolve_none_means_uncovered(fonts, c, i);
    let g = fonts.push(f);
    if i == fonts.len() {
        assert(g[i] == f);
    } else {
        assert(g[i] == fonts[i]);
        assert(!fonts[i].spec_covers(c)) by {
            assert(resolve_from(fonts, c, i) is None);
        }
        lemma_resolve_append_from(fonts, c, f, i + 1);
    }
}

/// A `None` resolution means no font at or after `i` covers `c`.
pub proof fn lemma_resolve_none_means_uncovered(fonts: Seq<Font>, c: char, i: int)
    requires
        0 <= i,
        resolve_from(fonts, c, i) is None,
    ensures
        forall|j: int| i <= j < fonts.len() ==> !(#[trigger] fonts[j]).spec_covers(c),
    decreases fonts.len() - i,
{
    if 0 <= i < fonts.len() {
        lemma_resolve_none_means_uncovered(fonts, c, i + 1);
    }
}

/// A successful resolution points at the first covering font.
pub proof fn lemma_resolve_some_properties(fonts: Seq<Font>, c: char, i: int)
    requires
        0 <= i,
        fonts.len() <= usize::MAX,
        resolve_from(fonts, c, i) is Some,
    ensures
        ({
            let k = resolve_from(fonts, c, i)->Some_0 as int;
            &&& i <= k < fonts.len()
            &&& fonts[k].spec_covers(c)
            &&& forall|j: int| i <= j < k ==> !(#[trigger] fonts[j]).spec_covers(c)
        }),
    decreases fonts.len() - i,
{
    if i < fonts.len() && !fonts[i].spec_covers(c) {
        lemma_resolve_some_properties(fonts, c, i + 1);
    }
}

} // verus!
