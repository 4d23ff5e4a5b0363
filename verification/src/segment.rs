//! Partitioning a text into glyph runs.
//!
//! Characters are resolved one at a time against the font set; consecutive
//! characters that resolve to the same run font coalesce into one run, so
//! run boundaries fall exactly where the resolved font changes, and the
//! runs concatenate back to the input text.

use vstd::prelude::*;

use crate::fontset::FontSet;
use crate::spool::char_count;
use crate::spool::concat_text;
use crate::spool::lemma_char_count_concat;
use crate::spool::lemma_char_count_singleton;
use crate::spool::lemma_concat_text_concat;
use crate::spool::lemma_concat_text_singleton;
use crate::spool::runs_compatible;
use crate::spool::runs_wf;
use crate::spool::Run;
use crate::spool::RunModel;

verus! {

/// The run sequence for `s`: each character joins the trailing run when it
/// resolves to that run's font, and opens a new run otherwise.
pub open spec fn spec_segment(fs: FontSet, s: Seq<char>) -> Seq<RunModel>
    decreases s.len(),
{
    if s.len() == 0 {
        Seq::empty()
    } else {
        let prev = spec_segment(fs, s.drop_last());
        let rf = fs.spec_run_font(s.last());
        if prev.len() > 0 && prev.last().font == rf {
            prev.update(
                prev.len() - 1,
                RunModel { text: prev.last().text.push(s.last()), font: rf },
            )
        } else {
            prev.push(RunModel { text: seq![s.last()], font: rf })
        }
    }
}

/// Segmentation round-trip: the run slices concatenate back to the text.
pub proof fn lemma_segment_reconstructs(fs: FontSet, s: Seq<char>)
    ensures
        concat_text(spec_segment(fs, s)) == s,
    decreases s.len(),
{
    if s.len() == 0 {
        assert(concat_text(spec_segment(fs, s)) =~= s);
    } else {
        lemma_segment_reconstructs(fs, s.drop_last());
        let prev = spec_segment(fs, s.drop_last());
        let rf = fs.spec_run_font(s.last());
        let seg = spec_segment(fs, s);
        if prev.len() > 0 && prev.last().font == rf {
            let ext = RunModel { text: prev.last().text.push(s.last()), font: rf };
            assert(prev =~= prev.drop_last() + seq![prev.last()]);
            assert(seg =~= prev.drop_last() + seq![ext]);
            lemma_concat_text_concat(prev.drop_last(), seq![prev.last()]);
            lemma_concat_text_concat(prev.drop_last(), seq![ext]);
            lemma_concat_text_singleton(prev.last());
            lemma_concat_text_singleton(ext);
            assert(ext.text =~= prev.last().text + seq![s.last()]);
            assert(s =~= s.drop_last() + seq![s.last()]);
            assert(concat_text(seg) =~= s);
        } else {
            let nr = RunModel { text: seq![s.last()], font: rf };
            assert(seg =~= prev + seq![nr]);
            lemma_concat_text_concat(prev, seq![nr]);
            lemma_concat_text_singleton(nr);
            assert(concat_text(seg) =~= s);
        }
    }
}

/// The runs hold exactly the characters of the text.
pub proof fn lemma_segment_count(fs: FontSet, s: Seq<char>)
    ensures
        char_count(spec_segment(fs, s)) == s.len(),
{
    lemma_segment_reconstructs(fs, s);
    lemma_concat_len(spec_segment(fs, s));
}

pub proof fn lemma_concat_len(runs: Seq<RunModel>)
    ensures
        concat_text(runs).len() == char_count(runs),
    decreases runs.len(),
{
    if runs.len() > 0 {
        lemma_concat_len(runs.drop_first());
    }
}

/// Segmentation shape: every run is non-empty, every character sits in a
/// run whose font is that character's resolved run font, and no two
/// adjacent runs share a font (coalescing is maximal).
pub proof fn lemma_segment_shape(fs: FontSet, s: Seq<char>)
    ensures
        runs_wf(spec_segment(fs, s)),
        forall|i: int, j: int|
            0 <= i < spec_segment(fs, s).len() && 0 <= j < (#[trigger] spec_segment(fs, s)[i]).text.len()
                ==> fs.spec_run_font(#[trigger] spec_segment(fs, s)[i].text[j]) == spec_segment(
                fs,
                s,
            )[i].font,
        forall|i: int|
            0 <= i < spec_segment(fs, s).len() - 1 ==> (#[trigger] spec_segment(fs, s)[i]).font
                != spec_segment(fs, s)[i + 1].font,
    decreases s.len(),
{
    if s.len() > 0 {
        lemma_segment_shape(fs, s.drop_last());
        let prev = spec_segment(fs, s.drop_last());
        let rf = fs.spec_run_font(s.last());
        let seg = spec_segment(fs, s);
        if prev.len() > 0 && prev.last().font == rf {
            let k = prev.len() - 1;
            assert(forall|i: int| 0 <= i < seg.len() && i != k ==> seg[i] == prev[i]);
            assert(seg[k].text =~= prev[k].text.push(s.last()));
            assert(forall|j: int|
                0 <= j < seg[k as int].text.len() ==> fs.spec_run_font(seg[k as int].text[j])
                    == rf) by {
                assert(forall|j: int|
                    0 <= j < prev[k as int].text.len() ==> seg[k as int].text[j] == prev[
                    k as int].text[j]);
            }
        } else {
            assert(forall|i: int| 0 <= i < prev.len() ==> seg[i] == prev[i]);
            assert(seg.last().text =~= seq![s.last()]);
        }
    }
}

/// Resolved run fonts point into the set.
pub proof fn lemma_segment_compatible(fs: FontSet, s: Seq<char>)
    requires
        1 <= fs.fonts@.len() <= usize::MAX,
    ensures
        runs_compatible(fs, spec_segment(fs, s)),
    decreases s.len(),
{
    if s.len() > 0 {
        lemma_segment_compatible(fs, s.drop_last());
        let prev = spec_segment(fs, s.drop_last());
        let rf = fs.spec_run_font(s.last());
        let seg = spec_segment(fs, s);
        assert(fs.valid_run_font(rf)) by {
            if fs.spec_resolve(s.last()) is Some {
                crate::fontset::lemma_resolve_some_properties(fs.fonts@, s.last(), 0);
            }
        }
        assert(forall|i: int| 0 <= i < prev.len() ==> fs.valid_run_font(prev[i].font));
        if prev.len() > 0 && prev.last().font == rf {
            assert(forall|i: int|
                0 <= i < seg.len() ==> fs.valid_run_font((#[trigger] seg[i]).font)) by {
                assert(forall|i: int| 0 <= i < seg.len() - 1 ==> seg[i] == prev[i]);
                assert(seg.last().font == rf);
            }
        } else {
            assert(forall|i: int|
                0 <= i < seg.len() ==> fs.valid_run_font((#[trigger] seg[i]).font)) by {
                assert(forall|i: int| 0 <= i < seg.len() - 1 ==> seg[i] == prev[i]);
                assert(seg.last().font == rf);
            }
        }
    }
}

/// Split `text` into runs by resolved font, coalescing consecutive
/// characters that resolve alike.
pub fn segment(text: &Vec<char>, fs: &FontSet) -> (r: Vec<Run>)
    ensures
        r@.map_values(|x: Run| x@) == spec_segment(*fs, text@),
{
    let mut runs: Vec<Run> = Vec::new();
    if text.len() == 0 {
        proof {
            assert(runs@.map_values(|x: Run| x@) =~= spec_segment(*fs, text@));
        }
        return runs;
    }
    let c0 = text[0];
    let mut cur_text: Vec<char> = Vec::new();
    cur_text.push(c0);
    let mut cur_font = fs.run_font(c0);
    proof {
        assert(text@.subrange(0, 1).drop_last() =~= Seq::<char>::empty());
        assert(text@.subrange(0, 1).last() == text@[0]);
        assert(spec_segment(*fs, Seq::<char>::empty()) =~= Seq::<RunModel>::empty());
        assert(spec_segment(*fs, text@.subrange(0, 1)) =~= Seq::<RunModel>::empty().push(
            RunModel { text: seq![text@[0]], font: fs.spec_run_font(text@[0]) },
        ));
        assert(runs@.map_values(|x: Run| x@).push(RunModel { text: cur_text@, font: cur_font })
            =~= spec_segment(*fs, text@.subrange(0, 1)));
    }
    let mut i: usize = 1;
    while i < text.len()
        invariant
            1 <= i <= text@.len(),
            cur_text@.len() > 0,
            runs@.map_values(|x: Run| x@).push(RunModel { text: cur_text@, font: cur_font })
                == spec_segment(*fs, text@.subrange(0, i as int)),
        decreases text@.len() - i,
    {
        let ghost prefix = text@.subrange(0, i as int);
        let ghost prev = spec_segment(*fs, prefix);
        let c = text[i];
        let f = fs.run_font(c);
        proof {
            assert(text@.subrange(0, i + 1).drop_last() =~= prefix);
            assert(text@.subrange(0, i + 1).last() == text@[i as int]);
            assert(prev.len() > 0);
            assert(prev.last() == (RunModel { text: cur_text@, font: cur_font }));
        }
        if f == cur_font {
            cur_text.push(c);
            proof {
                let seg = spec_segment(*fs, text@.subrange(0, i + 1));
                assert(seg == prev.update(
                    prev.len() - 1,
                    RunModel { text: prev.last().text.push(text@[i as int]), font: cur_font },
                ));
                assert(runs@.map_values(|x: Run| x@).push(
                    RunModel { text: cur_text@, font: cur_font },
                ) =~= seg);
            }
        } else {
            let finished = Run { text: cur_text, font: cur_font };
            let ghost fm = finished@;
            runs.push(finished);
            cur_text = Vec::new();
            cur_text.push(c);
            cur_font = f;
            proof {
                let seg = spec_segment(*fs, text@.subrange(0, i + 1));
                assert(seg == prev.push(
                    RunModel { text: seq![text@[i as int]], font: fs.spec_run_font(text@[i as int]) },
                ));
                assert(runs@.map_values(|x: Run| x@) =~= prev);
                assert(runs@.map_values(|x: Run| x@).push(
                    RunModel { text: cur_text@, font: cur_font },
                ) =~= seg);
            }
        }
        i = i + 1;
    }
    let finished = Run { text: cur_text, font: cur_font };
    runs.push(finished);
    proof {
        assert(text@.subrange(0, text@.len() as int) =~= text@);
        assert(runs@.map_values(|x: Run| x@) =~= spec_segment(*fs, text@));
    }
    runs
}

} // verus!
