//! The spool: an in-progress sequence of glyph runs under layout, with
//! width measurement against a font set and ellipsis truncation.
//!
//! The caller appends one sentinel character to the text before
//! segmentation; `elipsate` pops it back off and, when the remaining text
//! overflows the budget, materializes it three times as the ellipsis.
//! `fit` then shrinks the spool one trailing text character at a time (the
//! character just before the three ellipsis runs) until the total measured
//! width fits.

use vstd::prelude::*;

use crate::fontset::FontSet;
use crate::fontset::RunFont;

verus! {

/// A maximal slice of text drawn with one run font.
pub struct Run {
    pub text: Vec<char>,
    pub font: RunFont,
}

/// The mathematical value of a run.
pub ghost struct RunModel {
    pub text: Seq<char>,
    pub font: RunFont,
}

impl View for Run {
    type V = RunModel;

    open spec fn view(&self) -> RunModel {
        RunModel { text: self.text@, font: self.font }
    }
}

impl Clone for Run {
    fn clone(&self) -> (r: Self)
        ensures
            r@ == self@,
    {
        let mut text: Vec<char> = Vec::new();
        let mut i: usize = 0;
        while i < self.text.len()
            invariant
                i <= self.text@.len(),
                text@ == self.text@.subrange(0, i as int),
            decreases self.text@.len() - i,
        {
            text.push(self.text[i]);
            proof {
                assert(text@ =~= self.text@.subrange(0, i + 1));
            }
            i = i + 1;
        }
        proof {
            assert(text@ =~= self.text@);
        }
        Run { text, font: self.font }
    }
}

/// Total number of text characters held by the runs.
pub open spec fn char_count(runs: Seq<RunModel>) -> nat
    decreases runs.len(),
{
    if runs.len() == 0 {
        0
    } else {
        runs[0].text.len() + char_count(runs.drop_first())
    }
}

/// The text of the runs, concatenated in order.
pub open spec fn concat_text(runs: Seq<RunModel>) -> Seq<char>
    decreases runs.len(),
{
    if runs.len() == 0 {
        Seq::empty()
    } else {
        runs[0].text + concat_text(runs.drop_first())
    }
}

/// Measured width of `s` drawn with run font `rf`: the sum of the advance
/// widths of its characters.
pub open spec fn chars_width(fs: FontSet, rf: RunFont, s: Seq<char>) -> nat
    decreases s.len(),
{
    if s.len() == 0 {
        0
    } else {
        fs.spec_width_for(rf, s[0]) as nat + chars_width(fs, rf, s.drop_first())
    }
}

/// Total measured width of the runs.
pub open spec fn runs_width(fs: FontSet, runs: Seq<RunModel>) -> nat
    decreases runs.len(),
{
    if runs.len() == 0 {
        0
    } else {
        chars_width(fs, runs[0].font, runs[0].text) + runs_width(fs, runs.drop_first())
    }
}

/// Every run holds at least one character.
pub open spec fn runs_wf(runs: Seq<RunModel>) -> bool {
    forall|i: int| 0 <= i < runs.len() ==> (#[trigger] runs[i]).text.len() > 0
}

/// Every resolved run font points into the font set.
pub open spec fn runs_compatible(fs: FontSet, runs: Seq<RunModel>) -> bool {
    forall|i: int| 0 <= i < runs.len() ==> fs.valid_run_font((#[trigger] runs[i]).font)
}

pub proof fn lemma_char_count_singleton(r: RunModel)
    ensures
        char_count(seq![r]) == r.text.len(),
{
    assert(seq![r].drop_first() =~= Seq::<RunModel>::empty());
    assert(char_count(Seq::<RunModel>::empty()) == 0);
}

pub proof fn lemma_concat_text_singleton(r: RunModel)
    ensures
        concat_text(seq![r]) == r.text,
{
    assert(seq![r].drop_first() =~= Seq::<RunModel>::empty());
    assert(concat_text(Seq::<RunModel>::empty()) =~= Seq::<char>::empty());
    assert(concat_text(seq![r]) =~= r.text);
}

pub proof fn lemma_chars_width_singleton(fs: FontSet, rf: RunFont, c: char)
    ensures
        chars_width(fs, rf, seq![c]) == fs.spec_width_for(rf, c),
{
    assert(seq![c].drop_first() =~= Seq::<char>::empty());
    assert(chars_width(fs, rf, Seq::<char>::empty()) == 0);
}

pub proof fn lemma_runs_width_singleton(fs: FontSet, r: RunModel)
    ensures
        runs_width(fs, seq![r]) == chars_width(fs, r.font, r.text),
{
    assert(seq![r].drop_first() =~= Seq::<RunModel>::empty());
    assert(runs_width(fs, Seq::<RunModel>::empty()) == 0);
}

pub proof fn lemma_char_count_concat(a: Seq<RunModel>, b: Seq<RunModel>)
    ensures
        char_count(a + b) == char_count(a) + char_count(b),
    decreases a.len(),
{
    if a.len() == 0 {
        assert(a + b =~= b);
    } else {
        assert((a + b).drop_first() =~= a.drop_first() + b);
        lemma_char_count_concat(a.drop_first(), b);
    }
}

pub proof fn lemma_concat_text_concat(a: Seq<RunModel>, b: Seq<RunModel>)
    ensures
        concat_text(a + b) == concat_text(a) + concat_text(b),
    decreases a.len(),
{
    if a.len() == 0 {
        assert(a + b =~= b);
        assert(concat_text(a) + concat_text(b) =~= concat_text(b));
    } else {
        assert((a + b).drop_first() =~= a.drop_first() + b);
        lemma_concat_text_concat(a.drop_first(), b);
        assert(concat_text(a + b) =~= concat_text(a) + concat_text(b));
    }
}

pub proof fn lemma_chars_width_concat(fs: FontSet, rf: RunFont, a: Seq<char>, b: Seq<char>)
    ensures
        chars_width(fs, rf, a + b) == chars_width(fs, rf, a) + chars_width(fs, rf, b),
    decreases a.len(),
{
    if a.len() == 0 {
        assert(a + b =~= b);
    } else {
        assert((a + b).drop_first() =~= a.drop_first() + b);
        lemma_chars_width_concat(fs, rf, a.drop_first(), b);
    }
}

pub proof fn lemma_runs_width_concat(fs: FontSet, a: Seq<RunModel>, b: Seq<RunModel>)
    ensures
        runs_width(fs, a + b) == runs_width(fs, a) + runs_width(fs, b),
    decreases a.len(),
{
    if a.len() == 0 {
        assert(a + b =~= b);
    } else {
        assert((a + b).drop_first() =~= a.drop_first() + b);
        lemma_runs_width_concat(fs, a.drop_first(), b);
    }
}

/// Each character contributes less than 2^32 pixels of width.
pub proof fn lemma_chars_width_bound(fs: FontSet, rf: RunFont, s: Seq<char>)
    ensures
        chars_width(fs, rf, s) <= s.len() * 0xFFFF_FFFF,
    decreases s.len(),
{
    if s.len() > 0 {
        lemma_chars_width_bound(fs, rf, s.drop_first());
        assert(s.len() * 0xFFFF_FFFF == (s.len() - 1) * 0xFFFF_FFFF + 0xFFFF_FFFF)
            by (nonlinear_arith);
    }
}

pub proof fn lemma_runs_width_bound(fs: FontSet, runs: Seq<RunModel>)
    ensures
        runs_width(fs, runs) <= char_count(runs) * 0xFFFF_FFFF,
    decreases runs.len(),
{
    if runs.len() > 0 {
        lemma_chars_width_bound(fs, runs[0].font, runs[0].text);
        lemma_runs_width_bound(fs, runs.drop_first());
        let a = runs[0].text.len();
        let b = char_count(runs.drop_first());
        assert((a + b) * 0xFFFF_FFFF == a * 0xFFFF_FFFF + b * 0xFFFF_FFFF) by (nonlinear_arith);
    }
}

/// A spool within the layout capacity measures less than 2^64 pixels.
pub proof fn lemma_total_width_bound(fs: FontSet, runs: Seq<RunModel>)
    requires
        char_count(runs) <= 0x1_0000_0000,
    ensures
        runs_width(fs, runs) <= 0xFFFF_FFFF_0000_0000,
{
    lemma_runs_width_bound(fs, runs);
    assert(char_count(runs) * 0xFFFF_FFFF <= 0x1_0000_0000 * 0xFFFF_FFFF) by (nonlinear_arith)
        requires
            char_count(runs) <= 0x1_0000_0000,
    ;
}

/// Removing the final character: the popped single-character run, and what
/// is left (the whole last run disappears when it held only one character).
pub open spec fn spec_pop(runs: Seq<RunModel>) -> (Seq<RunModel>, RunModel)
    recommends
        runs.len() > 0,
{
    let last = runs.last();
    if last.text.len() <= 1 {
        (runs.drop_last(), last)
    } else {
        (
            runs.drop_last().push(RunModel { text: last.text.drop_last(), font: last.font }),
            RunModel { text: seq![last.text.last()], font: last.font },
        )
    }
}

/// Removing one character just before the three trailing ellipsis runs;
/// with three or fewer runs left, the last whole run goes instead.
pub open spec fn spec_elipse_pop(runs: Seq<RunModel>) -> Seq<RunModel> {
    if runs.len() == 0 {
        runs
    } else if runs.len() <= 3 {
        runs.drop_last()
    } else {
        let k = runs.len() - 4;
        if runs[k].text.len() <= 1 {
            runs.remove(k)
        } else {
            runs.update(k, RunModel { text: runs[k].text.drop_last(), font: runs[k].font })
        }
    }
}

/// Phase one of fitting: pop the sentinel; if the remaining text already
/// overflows the budget, mark the spool ellipsed and push the sentinel
/// back three times as the ellipsis.
pub open spec fn spec_elipsate(fs: FontSet, runs: Seq<RunModel>, elipsed: bool, w: u32) -> (
    Seq<RunModel>,
    bool,
)
    recommends
        runs.len() > 0,
{
    let (rest, e) = spec_pop(runs);
    if runs_width(fs, rest) > w {
        (rest.push(e).push(e).push(e), true)
    } else {
        (rest, elipsed)
    }
}

/// Phase two of fitting: remove trailing text characters until the total
/// measured width fits the budget (an empty spool measures zero, so this
/// always terminates at or under the budget).
pub open spec fn spec_shrink(fs: FontSet, runs: Seq<RunModel>, w: u32) -> Seq<RunModel>
    decreases char_count(runs), runs.len(),
    via spec_shrink_decreases
{
    if runs_width(fs, runs) <= w {
        runs
    } else {
        spec_shrink(fs, spec_elipse_pop(runs), w)
    }
}

/// `spec_elipse_pop` decreases the pair (character count, run count).
pub proof fn lemma_elipse_pop_lex(runs: Seq<RunModel>)
    requires
        runs.len() > 0,
    ensures
        char_count(spec_elipse_pop(runs)) <= char_count(runs),
        char_count(spec_elipse_pop(runs)) == char_count(runs) ==> spec_elipse_pop(runs).len()
            < runs.len(),
{
    let ep = spec_elipse_pop(runs);
    if runs.len() <= 3 {
        assert(runs =~= runs.drop_last() + seq![runs.last()]);
        lemma_char_count_concat(runs.drop_last(), seq![runs.last()]);
        lemma_char_count_singleton(runs.last());
    } else {
        let k = runs.len() - 4;
        let front = runs.subrange(0, k);
        let back = runs.subrange(k + 1, runs.len() as int);
        assert(runs =~= front + seq![runs[k]] + back);
        lemma_char_count_concat(front + seq![runs[k]], back);
        lemma_char_count_concat(front, seq![runs[k]]);
        lemma_char_count_singleton(runs[k]);
        if runs[k].text.len() <= 1 {
            assert(ep =~= front + back);
            lemma_char_count_concat(front, back);
        } else {
            let m = RunModel { text: runs[k].text.drop_last(), font: runs[k].font };
            assert(ep =~= front + seq![m] + back);
            lemma_char_count_concat(front + seq![m], back);
            lemma_char_count_concat(front, seq![m]);
            lemma_char_count_singleton(m);
        }
    }
}

#[via_fn]
proof fn spec_shrink_decreases(fs: FontSet, runs: Seq<RunModel>, w: u32) {
    if runs_width(fs, runs) > w {
        assert(runs.len() > 0);
        lemma_elipse_pop_lex(runs);
    }
}

/// The whole truncation step: ellipsis check, then shrink to fit.
pub open spec fn spec_fit(fs: FontSet, runs: Seq<RunModel>, elipsed: bool, w: u32) -> (
    Seq<RunModel>,
    bool,
)
    recommends
        runs.len() > 0,
{
    let (r1, e1) = spec_elipsate(fs, runs, elipsed, w);
    (spec_shrink(fs, r1, w), e1)
}

/// The mutable run sequence a text is laid out through.
pub struct Spool {
    data: Vec<Run>,
    elipsed: bool,
}

impl Spool {
    /// The run models, in order.
    pub closed spec fn runs(self) -> Seq<RunModel> {
        self.data@.map_values(|r: Run| r@)
    }

    /// Whether truncation has begun.
    pub closed spec fn is_elipsed(self) -> bool {
        self.elipsed
    }

    pub open spec fn wf(self) -> bool {
        runs_wf(self.runs())
    }

    pub fn new() -> (r: Spool)
        ensures
            r.runs() == Seq::<RunModel>::empty(),
            !r.is_elipsed(),
            r.wf(),
    {
        let r = Spool { data: Vec::new(), elipsed: false };
        proof {
            assert(r.runs() =~= Seq::<RunModel>::empty());
        }
        r
    }

    /// Start from an already segmented run sequence.
    pub fn from_runs(runs: Vec<Run>) -> (r: Spool)
        requires
            runs_wf(runs@.map_values(|x: Run| x@)),
        ensures
            r.runs() == runs@.map_values(|x: Run| x@),
            !r.is_elipsed(),
            r.wf(),
    {
        Spool { data: runs, elipsed: false }
    }

    pub fn push(&mut self, run: Run)
        requires
            run.text@.len() > 0,
        ensures
            final(self).runs() == old(self).runs().push(run@),
            final(self).is_elipsed() == old(self).is_elipsed(),
            old(self).wf() ==> final(self).wf(),
    {
        let ghost prev = self.runs();
        self.data.push(run);
        proof {
            assert(self.runs() =~= prev.push(run@));
        }
    }

    /// Remove and return the final character of the spool as a run of its
    /// own, deleting the last run when that empties it.
    pub fn pop(&mut self) -> (r: Run)
        requires
            old(self).wf(),
            old(self).runs().len() > 0,
        ensures
            final(self).runs() == spec_pop(old(self).runs()).0,
            r@ == spec_pop(old(self).runs()).1,
            final(self).is_elipsed() == old(self).is_elipsed(),
            final(self).wf(),
    {
        let ghost prev = self.runs();
        let mut last = self.data.pop().unwrap();
        proof {
            assert(prev.last() == last@);
            assert(self.runs() =~= prev.drop_last());
        }
        if last.text.len() == 1 {
            last
        } else {
            let c = last.text.pop().unwrap();
            let ghost shortened = last@;
            let font = last.font;
            self.data.push(last);
            proof {
                assert(self.runs() =~= prev.drop_last().push(shortened));
                assert(shortened.text =~= prev.last().text.drop_last());
                assert(self.runs() =~= spec_pop(prev).0);
            }
            let mut text: Vec<char> = Vec::new();
            text.push(c);
            let r = Run { text, font };
            proof {
                assert(r@.text =~= seq![prev.last().text.last()]);
            }
            r
        }
    }

    /// Remove one character just before the three trailing ellipsis runs.
    pub fn elipse_pop(&mut self)
        requires
            old(self).wf(),
        ensures
            final(self).runs() == spec_elipse_pop(old(self).runs()),
            final(self).is_elipsed() == old(self).is_elipsed(),
            final(self).wf(),
    {
        let ghost prev = self.runs();
        let len = self.data.len();
        if len == 0 {
            return ;
        } else if len <= 3 {
            self.data.pop();
            proof {
                assert(self.runs() =~= prev.drop_last());
            }
        } else {
            let k = len - 4;
            if self.data[k].text.len() <= 1 {
                self.data.remove(k);
                proof {
                    assert(self.runs() =~= prev.remove(k as int));
                }
            } else {
                let mut r = self.data.remove(k);
                r.text.pop();
                let ghost shortened = r@;
                self.data.insert(k, r);
                proof {
                    let m = RunModel {
                        text: prev[k as int].text.drop_last(),
                        font: prev[k as int].font,
                    };
                    assert(shortened.text =~= m.text);
                    assert(self.runs() =~= prev.update(k as int, m));
                }
            }
        }
    }

    /// Measured width of the first `k` runs.
    fn width_prefix(&self, fs: &FontSet, k: usize) -> (r: u64)
        requires
            fs.wf(),
            runs_compatible(*fs, self.runs()),
            k <= self.runs().len(),
            char_count(self.runs()) <= 0x1_0000_0000,
        ensures
            r as nat == runs_width(*fs, self.runs().subrange(0, k as int)),
    {
        proof {
            lemma_total_width_bound(*fs, self.runs());
        }
        let mut acc: u64 = 0;
        let mut i: usize = 0;
        while i < k
            invariant
                fs.wf(),
                runs_compatible(*fs, self.runs()),
                k <= self.runs().len(),
                char_count(self.runs()) <= 0x1_0000_0000,
                runs_width(*fs, self.runs()) <= 0xFFFF_FFFF_0000_0000,
                i <= k,
                acc as nat == runs_width(*fs, self.runs().subrange(0, i as int)),
            decreases k - i,
        {
            let run = &self.data[i];
            let ghost rm = self.runs()[i as int];
            proof {
                assert(self.runs() =~= self.runs().subrange(0, i + 1) + self.runs().subrange(
                    i + 1,
                    self.runs().len() as int,
                ));
                lemma_runs_width_concat(
                    *fs,
                    self.runs().subrange(0, i + 1),
                    self.runs().subrange(i + 1, self.runs().len() as int),
                );
                assert(self.runs().subrange(0, i + 1) =~= self.runs().subrange(0, i as int) + seq![
                    rm,
                ]);
                lemma_runs_width_concat(*fs, self.runs().subrange(0, i as int), seq![rm]);
                lemma_runs_width_singleton(*fs, rm);
            }
            let mut cw: u64 = 0;
            let mut j: usize = 0;
            while j < run.text.len()
                invariant
                    fs.wf(),
                    fs.valid_run_font(rm.font),
                    rm == run@,
                    j <= run.text@.len(),
                    cw as nat == chars_width(*fs, rm.font, rm.text.subrange(0, j as int)),
                    chars_width(*fs, rm.font, rm.text) <= 0xFFFF_FFFF_0000_0000,
                decreases run.text@.len() - j,
            {
                let c = run.text[j];
                let cwc = fs.width_for(run.font, c);
                proof {
                    assert(rm.text.subrange(0, j + 1) =~= rm.text.subrange(0, j as int) + seq![
                        rm.text[j as int],
                    ]);
                    lemma_chars_width_concat(
                        *fs,
                        rm.font,
                        rm.text.subrange(0, j as int),
                        seq![rm.text[j as int]],
                    );
                    lemma_chars_width_singleton(*fs, rm.font, rm.text[j as int]);
                    lemma_prefix_chars_width_le(*fs, rm.font, rm.text, j + 1);
                }
                cw = cw + cwc as u64;
                j = j + 1;
            }
            proof {
                assert(rm.text.subrange(0, rm.text.len() as int) =~= rm.text);
                assert(self.runs().subrange(0, i + 1) =~= self.runs().subrange(0, i as int) + seq![
                    rm,
                ]);
                lemma_runs_width_concat(*fs, self.runs().subrange(0, i as int), seq![rm]);
                assert(runs_width(*fs, seq![rm]) == chars_width(*fs, rm.font, rm.text));
                lemma_prefix_runs_width_le(*fs, self.runs(), i + 1);
            }
            acc = acc + cw;
            i = i + 1;
        }
        acc
    }

    /// Pop the trailing sentinel character; if what remains still
    /// overflows `w`, mark the spool ellipsed and push the sentinel back
    /// three times to materialize the ellipsis.
    pub fn elipsate(&mut self, fs: &FontSet, w: u32)
        requires
            fs.wf(),
            old(self).wf(),
            runs_compatible(*fs, old(self).runs()),
            old(self).runs().len() > 0,
            char_count(old(self).runs()) <= 0xFFFF_FFFE,
        ensures
            (final(self).runs(), final(self).is_elipsed()) == spec_elipsate(
                *fs,
                old(self).runs(),
                old(self).is_elipsed(),
                w,
            ),
            final(self).wf(),
            runs_compatible(*fs, final(self).runs()),
            char_count(final(self).runs()) <= char_count(old(self).runs()) + 2,
    {
        proof {
            lemma_pop_props(*fs, self.runs());
        }
        let e = self.pop();
        let wd = self.width(fs);
        if wd > w as u64 {
            self.elipsed = true;
            let ghost r0 = self.runs();
            let e2 = e.clone();
            let e3 = e.clone();
            self.push(e2);
            self.push(e3);
            self.push(e);
            proof {
                lemma_char_count_push(r0, e@);
                lemma_char_count_push(r0.push(e@), e@);
                lemma_char_count_push(r0.push(e@).push(e@), e@);
            }
        }
    }

    /// Truncate to the width budget: ellipsis check, then shrink one
    /// trailing character at a time until the measured width fits.
    pub fn fit(&mut self, fs: &FontSet, w: u32)
        requires
            fs.wf(),
            old(self).wf(),
            runs_compatible(*fs, old(self).runs()),
            old(self).runs().len() > 0,
            char_count(old(self).runs()) <= 0xFFFF_FFFE,
        ensures
            (final(self).runs(), final(self).is_elipsed()) == spec_fit(
                *fs,
                old(self).runs(),
                old(self).is_elipsed(),
                w,
            ),
            runs_width(*fs, final(self).runs()) <= w,
            final(self).wf(),
            runs_compatible(*fs, final(self).runs()),
            char_count(final(self).runs()) <= char_count(old(self).runs()) + 2,
    {
        self.elipsate(fs, w);
        let ghost r1 = self.runs();
        let ghost e1 = self.is_elipsed();
        while self.width(fs) > w as u64
            invariant
                fs.wf(),
                self.wf(),
                runs_compatible(*fs, self.runs()),
                char_count(self.runs()) <= char_count(r1),
                char_count(r1) <= 0x1_0000_0000,
                self.is_elipsed() == e1,
                spec_shrink(*fs, self.runs(), w) == spec_shrink(*fs, r1, w),
            decreases char_count(self.runs()), self.runs().len(),
        {
            proof {
                lemma_elipse_pop_lex(self.runs());
                lemma_elipse_pop_props(*fs, self.runs());
            }
            self.elipse_pop();
        }
    }

    /// Pixel offset at which the ellipsis begins: the width of everything
    /// before the three trailing ellipsis runs. `None` when the spool was
    /// never truncated.
    pub fn elip_width(&self, fs: &FontSet) -> (r: Option<u64>)
        requires
            fs.wf(),
            runs_compatible(*fs, self.runs()),
            char_count(self.runs()) <= 0x1_0000_0000,
        ensures
            match r {
                None => !self.is_elipsed(),
                Some(off) => self.is_elipsed() && off as nat == (if self.runs().len() <= 3 {
                    runs_width(*fs, self.runs())
                } else {
                    runs_width(*fs, self.runs().subrange(0, self.runs().len() - 3))
                }),
            },
    {
        if !self.elipsed {
            None
        } else if self.data.len() <= 3 {
            Some(self.width(fs))
        } else {
            Some(self.width_prefix(fs, self.data.len() - 3))
        }
    }

    /// Surrender the runs for rendering, in order.
    pub fn into_iter(self) -> (r: Vec<Run>)
        ensures
            r@.map_values(|x: Run| x@) == self.runs(),
    {
        let Spool { data, elipsed: _ } = self;
        data
    }

    /// Total measured width of the spool against the font set.
    pub fn width(&self, fs: &FontSet) -> (r: u64)
        requires
            fs.wf(),
            runs_compatible(*fs, self.runs()),
            char_count(self.runs()) <= 0x1_0000_0000,
        ensures
            r as nat == runs_width(*fs, self.runs()),
    {
        let r = self.width_prefix(fs, self.data.len());
        proof {
            assert(self.runs().subrange(0, self.runs().len() as int) =~= self.runs());
        }
        r
    }
}

pub proof fn lemma_char_count_push(runs: Seq<RunModel>, r: RunModel)
    ensures
        char_count(runs.push(r)) == char_count(runs) + r.text.len(),
{
    assert(runs.push(r) =~= runs + seq![r]);
    lemma_char_count_concat(runs, seq![r]);
    lemma_char_count_singleton(r);
}

/// What `spec_pop` leaves and hands back: one character moved out, width
/// and text conserved, shape preserved.
pub proof fn lemma_pop_props(fs: FontSet, runs: Seq<RunModel>)
    requires
        runs.len() > 0,
        runs_wf(runs),
    ensures
        ({
            let (rest, e) = spec_pop(runs);
            &&& e.text.len() == 1
            &&& e.font == runs.last().font
            &&& runs_wf(rest)
            &&& char_count(rest) + 1 == char_count(runs)
            &&& runs_width(fs, rest) + chars_width(fs, e.font, e.text) == runs_width(fs, runs)
            &&& concat_text(rest) + e.text == concat_text(runs)
            &&& runs_compatible(fs, runs) ==> runs_compatible(fs, rest)
        }),
{
    let last = runs.last();
    let (rest, e) = spec_pop(runs);
    assert(runs =~= runs.drop_last() + seq![last]);
    lemma_char_count_concat(runs.drop_last(), seq![last]);
    lemma_char_count_singleton(last);
    lemma_runs_width_concat(fs, runs.drop_last(), seq![last]);
    lemma_runs_width_singleton(fs, last);
    lemma_concat_text_concat(runs.drop_last(), seq![last]);
    lemma_concat_text_singleton(last);
    assert(last.text.len() > 0) by {
        assert(runs[runs.len() - 1].text.len() > 0);
    }
    if last.text.len() <= 1 {
        assert(runs_wf(rest)) by {
            assert(forall|i: int| 0 <= i < rest.len() ==> rest[i] == runs[i]);
        }
        assert(concat_text(rest) + e.text =~= concat_text(runs));
    } else {
        let short = RunModel { text: last.text.drop_last(), font: last.font };
        assert(rest =~= runs.drop_last() + seq![short]);
        lemma_char_count_concat(runs.drop_last(), seq![short]);
        lemma_char_count_singleton(short);
        lemma_runs_width_concat(fs, runs.drop_last(), seq![short]);
        lemma_runs_width_singleton(fs, short);
        lemma_concat_text_concat(runs.drop_last(), seq![short]);
        lemma_concat_text_singleton(short);
        assert(last.text =~= short.text + seq![last.text.last()]);
        lemma_chars_width_concat(fs, last.font, short.text, seq![last.text.last()]);
        lemma_chars_width_singleton(fs, last.font, last.text.last());
        assert(e.text =~= seq![last.text.last()]);
        lemma_chars_width_singleton(fs, e.font, last.text.last());
        assert(chars_width(fs, e.font, e.text) == fs.spec_width_for(e.font, last.text.last()))
            by {
            assert(e.text == seq![last.text.last()]);
        }
        assert(runs_wf(rest)) by {
            assert(forall|i: int| 0 <= i < rest.len() - 1 ==> rest[i] == runs[i]);
            assert(rest.last() == short);
        }
        assert(concat_text(rest) + e.text =~= concat_text(runs));
    }
}

/// `spec_elipse_pop` never adds width or characters and keeps the spool
/// well formed.
pub proof fn lemma_elipse_pop_props(fs: FontSet, runs: Seq<RunModel>)
    requires
        runs_wf(runs),
    ensures
        runs_wf(spec_elipse_pop(runs)),
        runs_compatible(fs, runs) ==> runs_compatible(fs, spec_elipse_pop(runs)),
        runs_width(fs, spec_elipse_pop(runs)) <= runs_width(fs, runs),
        char_count(spec_elipse_pop(runs)) <= char_count(runs),
{
    let ep = spec_elipse_pop(runs);
    if runs.len() == 0 {
    } else if runs.len() <= 3 {
        assert(runs =~= runs.drop_last() + seq![runs.last()]);
        lemma_char_count_concat(runs.drop_last(), seq![runs.last()]);
        lemma_char_count_singleton(runs.last());
        lemma_runs_width_concat(fs, runs.drop_last(), seq![runs.last()]);
        lemma_runs_width_singleton(fs, runs.last());
        assert(runs_wf(ep)) by {
            assert(forall|i: int| 0 <= i < ep.len() ==> ep[i] == runs[i]);
        }
    } else {
        let k = runs.len() - 4;
        let front = runs.subrange(0, k);
        let back = runs.subrange(k + 1, runs.len() as int);
        assert(runs =~= front + seq![runs[k]] + back);
        lemma_char_count_concat(front + seq![runs[k]], back);
        lemma_char_count_concat(front, seq![runs[k]]);
        lemma_char_count_singleton(runs[k]);
        lemma_runs_width_concat(fs, front + seq![runs[k]], back);
        lemma_runs_width_concat(fs, front, seq![runs[k]]);
        lemma_runs_width_singleton(fs, runs[k]);
        if runs[k].text.len() <= 1 {
            assert(ep =~= front + back);
            lemma_char_count_concat(front, back);
            lemma_runs_width_concat(fs, front, back);
            assert(runs_wf(ep)) by {
                assert(forall|i: int|
                    0 <= i < ep.len() ==> ep[i] == runs[i] || ep[i] == runs[i + 1]);
            }
        } else {
            let m = RunModel { text: runs[k].text.drop_last(), font: runs[k].font };
            assert(ep =~= front + seq![m] + back);
            lemma_char_count_concat(front + seq![m], back);
            lemma_char_count_concat(front, seq![m]);
            lemma_char_count_singleton(m);
            lemma_runs_width_concat(fs, front + seq![m], back);
            lemma_runs_width_concat(fs, front, seq![m]);
            lemma_runs_width_singleton(fs, m);
            assert(runs[k].text =~= m.text + seq![runs[k].text.last()]);
            lemma_chars_width_concat(fs, m.font, m.text, seq![runs[k].text.last()]);
            assert(runs_wf(ep)) by {
                assert(forall|i: int| 0 <= i < ep.len() && i != k ==> ep[i] == runs[i]);
                assert(ep[k] == m);
            }
        }
    }
}

/// A prefix never outweighs the whole run text.
pub proof fn lemma_prefix_chars_width_le(fs: FontSet, rf: RunFont, s: Seq<char>, k: int)
    requires
        0 <= k <= s.len(),
    ensures
        chars_width(fs, rf, s.subrange(0, k)) <= chars_width(fs, rf, s),
{
    assert(s =~= s.subrange(0, k) + s.subrange(k, s.len() as int));
    lemma_chars_width_concat(fs, rf, s.subrange(0, k), s.subrange(k, s.len() as int));
}

/// A prefix never outweighs the whole spool.
pub proof fn lemma_prefix_runs_width_le(fs: FontSet, runs: Seq<RunModel>, k: int)
    requires
        0 <= k <= runs.len(),
    ensures
        runs_width(fs, runs.subrange(0, k)) <= runs_width(fs, runs),
{
    assert(runs =~= runs.subrange(0, k) + runs.subrange(k, runs.len() as int));
    lemma_runs_width_concat(fs, runs.subrange(0, k), runs.subrange(k, runs.len() as int));
}

/// Shrinking always lands at or under the budget: the loop only stops at
/// a width within `w`, and an exhausted spool measures zero.
pub proof fn lemma_shrink_fits(fs: FontSet, runs: Seq<RunModel>, w: u32)
    ensures
        runs_width(fs, spec_shrink(fs, runs, w)) <= w,
    decreases char_count(runs), runs.len(),
{
    if runs_width(fs, runs) > w {
        lemma_elipse_pop_lex(runs);
        lemma_shrink_fits(fs, spec_elipse_pop(runs), w);
    }
}

/// Shrinking never adds width.
pub proof fn lemma_shrink_width_le(fs: FontSet, runs: Seq<RunModel>, w: u32)
    requires
        runs_wf(runs),
    ensures
        runs_width(fs, spec_shrink(fs, runs, w)) <= runs_width(fs, runs),
    decreases char_count(runs), runs.len(),
{
    if runs_width(fs, runs) > w {
        lemma_elipse_pop_lex(runs);
        lemma_elipse_pop_props(fs, runs);
        lemma_shrink_width_le(fs, spec_elipse_pop(runs), w);
    }
}

/// A tighter budget never keeps more width than a looser one.
pub proof fn lemma_shrink_monotone(fs: FontSet, runs: Seq<RunModel>, w1: u32, w2: u32)
    requires
        w1 <= w2,
        runs_wf(runs),
    ensures
        runs_width(fs, spec_shrink(fs, runs, w1)) <= runs_width(fs, spec_shrink(fs, runs, w2)),
    decreases char_count(runs), runs.len(),
{
    if runs_width(fs, runs) <= w2 {
        lemma_shrink_width_le(fs, runs, w1);
    } else {
        lemma_elipse_pop_lex(runs);
        lemma_elipse_pop_props(fs, runs);
        lemma_shrink_monotone(fs, spec_elipse_pop(runs), w1, w2);
    }
}

/// Truncation monotonicity: for one spool, the width consumed by the
/// fitted result never grows as the budget shrinks, and it never exceeds
/// the budget.
pub proof fn lemma_fit_monotone(
    fs: FontSet,
    runs: Seq<RunModel>,
    elipsed: bool,
    w1: u32,
    w2: u32,
)
    requires
        w1 <= w2,
        runs.len() > 0,
        runs_wf(runs),
    ensures
        runs_width(fs, spec_fit(fs, runs, elipsed, w1).0) <= runs_width(
            fs,
            spec_fit(fs, runs, elipsed, w2).0,
        ),
        runs_width(fs, spec_fit(fs, runs, elipsed, w1).0) <= w1,
        runs_width(fs, spec_fit(fs, runs, elipsed, w2).0) <= w2,
{
    lemma_pop_props(fs, runs);
    let (rest, e) = spec_pop(runs);
    let rw = runs_width(fs, rest);
    lemma_shrink_fits(fs, spec_elipsate(fs, runs, elipsed, w1).0, w1);
    lemma_shrink_fits(fs, spec_elipsate(fs, runs, elipsed, w2).0, w2);
    if rw <= w1 {
        // neither budget needs the ellipsis
    } else if rw <= w2 {
        // only the tighter budget truncates, to at most w1 < the width the
        // looser budget keeps in full
    } else {
        // both truncate, shrinking the same ellipsed spool
        let s0 = rest.push(e).push(e).push(e);
        assert(runs_wf(s0)) by {
            assert(forall|i: int|
                0 <= i < s0.len() ==> s0[i] == (if i < rest.len() {
                    rest[i]
                } else {
                    e
                }));
        }
        lemma_shrink_monotone(fs, s0, w1, w2);
    }
}

/// Fitting a spool whose text (sentinel aside) already fits the budget
/// changes nothing: the sentinel is discarded and no ellipsis appears.
pub proof fn lemma_fit_already_fits(fs: FontSet, runs: Seq<RunModel>, elipsed: bool, w: u32)
    requires
        runs.len() > 0,
        runs_width(fs, spec_pop(runs).0) <= w,
    ensures
        spec_fit(fs, runs, elipsed, w) == (spec_pop(runs).0, elipsed),
{
}

/// Ellipsis idempotence: re-running the whole protocol — push a fresh
/// sentinel, then fit — on an already fitted spool whose width is within
/// the budget hands the spool back unchanged, with no second ellipsis.
pub proof fn lemma_fit_idempotent(
    fs: FontSet,
    runs: Seq<RunModel>,
    elipsed: bool,
    w: u32,
    sentinel: RunModel,
)
    requires
        sentinel.text.len() == 1,
        runs_width(fs, runs) <= w,
    ensures
        spec_fit(fs, runs.push(sentinel), elipsed, w) == (runs, elipsed),
{
    let t = runs.push(sentinel);
    assert(t.last() == sentinel);
    assert(t.drop_last() =~= runs);
    lemma_fit_already_fits(fs, t, elipsed, w);
}

} // verus!
