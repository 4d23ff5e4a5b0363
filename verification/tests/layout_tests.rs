use dmenu_core::fontset::DiscoveryOutcome;
use dmenu_core::fontset::Font;
use dmenu_core::fontset::FontSet;
use dmenu_core::fontset::Glyph;
use dmenu_core::fontset::LayoutError;
use dmenu_core::fontset::RunFont;
use dmenu_core::layout::cursor_offset;
use dmenu_core::layout::cursor_visible;
use dmenu_core::layout::input_field_width;
use dmenu_core::layout::layout_text;
use dmenu_core::segment::segment;
use dmenu_core::spool::Run;
use dmenu_core::spool::Spool;

fn font(chars: &[(char, u32)], missing: u32) -> Font {
    let glyphs = chars.iter().map(|&(ch, width)| Glyph { ch, width }).collect();
    Font { glyphs, height: 12, ascent: 10, missing_width: missing }
}

/// A primary font with latin letters and the dot, all ten pixels wide but
/// the dot at five, plus a symbol-only fallback font.
fn two_fonts() -> FontSet {
    let primary = font(
        &[
            ('a', 10),
            ('b', 10),
            ('c', 10),
            ('d', 10),
            ('e', 10),
            ('f', 10),
            ('.', 5),
        ],
        7,
    );
    let symbols = font(&[('\u{2764}', 13)], 7);
    let mut fs = FontSet::new(primary);
    fs.fonts.push(symbols);
    fs
}

fn run_text(r: &Run) -> String {
    r.text.iter().collect()
}

fn concat(runs: &[Run]) -> String {
    runs.iter().map(run_text).collect()
}

#[test]
fn segmentation_round_trip() {
    let fs = two_fonts();
    let text: Vec<char> = "ab\u{2764}cd".chars().collect();
    let runs = segment(&text, &fs);
    assert_eq!(concat(&runs), "ab\u{2764}cd");
}

#[test]
fn segmentation_coalesces_and_splits_on_font_change() {
    let fs = two_fonts();
    let text: Vec<char> = "ab\u{2764}cd".chars().collect();
    let runs = segment(&text, &fs);
    assert_eq!(runs.len(), 3);
    assert_eq!(run_text(&runs[0]), "ab");
    assert_eq!(runs[0].font, RunFont::Resolved(0));
    assert_eq!(run_text(&runs[1]), "\u{2764}");
    assert_eq!(runs[1].font, RunFont::Resolved(1));
    assert_eq!(run_text(&runs[2]), "cd");
    assert_eq!(runs[2].font, RunFont::Resolved(0));
}

#[test]
fn segmentation_marks_unsupported_characters() {
    let fs = two_fonts();
    let text: Vec<char> = "a\u{1F600}b".chars().collect();
    let runs = segment(&text, &fs);
    assert_eq!(concat(&runs), "a\u{1F600}b");
    assert_eq!(runs.len(), 3);
    assert_eq!(runs[1].font, RunFont::Unsupported);
}

#[test]
fn no_two_adjacent_runs_share_a_font() {
    let fs = two_fonts();
    let text: Vec<char> = "a\u{2764}\u{2764}bc\u{1F600}.".chars().collect();
    let runs = segment(&text, &fs);
    for pair in runs.windows(2) {
        assert_ne!(pair[0].font, pair[1].font);
    }
    assert_eq!(concat(&runs), "a\u{2764}\u{2764}bc\u{1F600}.");
}

#[test]
fn layout_without_truncation_keeps_text() {
    let fs = two_fonts();
    let text: Vec<char> = "abcdef".chars().collect();
    let (runs, width, elip) = layout_text(&text, &fs, 100, true);
    assert_eq!(concat(&runs), "abcdef");
    assert_eq!(width, 60);
    assert_eq!(elip, None);
}

#[test]
fn layout_truncates_with_three_dot_ellipsis() {
    let fs = two_fonts();
    let text: Vec<char> = "abcdef".chars().collect();
    let (runs, width, elip) = layout_text(&text, &fs, 35, true);
    // four letters are removed; "ab" plus three five-pixel dots fit in 35
    assert_eq!(concat(&runs), "ab...");
    assert_eq!(width, 35);
    assert_eq!(elip, Some(20));
}

#[test]
fn truncation_monotone_in_budget() {
    let fs = two_fonts();
    let text: Vec<char> = "abcdef".chars().collect();
    let mut previous: u64 = 0;
    for w in [0u32, 10, 20, 35, 40, 55, 60, 100] {
        let (_, width, _) = layout_text(&text, &fs, w, true);
        assert!(width <= w as u64);
        assert!(width >= previous);
        previous = width;
    }
}

#[test]
fn layout_degenerate_budget_empties_spool() {
    let fs = two_fonts();
    let text: Vec<char> = "abc".chars().collect();
    let (runs, width, _) = layout_text(&text, &fs, 0, true);
    assert_eq!(concat(&runs), "");
    assert_eq!(width, 0);
}

#[test]
fn layout_measure_mode_reports_full_width() {
    let fs = two_fonts();
    let text: Vec<char> = "ab\u{2764}".chars().collect();
    let (runs, width, elip) = layout_text(&text, &fs, u32::MAX, false);
    assert_eq!(concat(&runs), "ab\u{2764}");
    assert_eq!(width, 33);
    assert_eq!(elip, None);
}

#[test]
fn refit_of_fitted_text_changes_nothing() {
    let fs = two_fonts();
    let text: Vec<char> = "abcdef".chars().collect();
    let (runs, width, _) = layout_text(&text, &fs, 35, true);
    let refit: Vec<char> = concat(&runs).chars().collect();
    let (runs2, width2, elip2) = layout_text(&refit, &fs, 35, true);
    assert_eq!(concat(&runs2), concat(&runs));
    assert_eq!(width2, width);
    assert_eq!(elip2, None);
}

#[test]
fn layout_of_empty_text_is_empty() {
    let fs = two_fonts();
    let text: Vec<char> = Vec::new();
    let (runs, width, elip) = layout_text(&text, &fs, 50, true);
    assert_eq!(concat(&runs), "");
    assert_eq!(width, 0);
    assert_eq!(elip, None);
}

#[test]
fn unsupported_characters_measure_as_primary_missing_glyph() {
    let fs = two_fonts();
    // the unsupported character is billed the primary font's missing-glyph
    // box width of seven pixels
    let text: Vec<char> = "a\u{1F600}".chars().collect();
    let (_, width, _) = layout_text(&text, &fs, u32::MAX, false);
    assert_eq!(width, 17);
}

#[test]
fn spool_pop_splits_last_run() {
    let mut spool = Spool::new();
    spool.push(Run { text: vec!['a', 'b'], font: RunFont::Resolved(0) });
    let popped = spool.pop();
    assert_eq!(popped.text, vec!['b']);
    assert_eq!(popped.font, RunFont::Resolved(0));
    let rest = spool.into_iter();
    assert_eq!(rest.len(), 1);
    assert_eq!(rest[0].text, vec!['a']);
}

#[test]
fn spool_pop_removes_single_character_run() {
    let mut spool = Spool::new();
    spool.push(Run { text: vec!['a'], font: RunFont::Resolved(0) });
    spool.push(Run { text: vec!['z'], font: RunFont::Unsupported });
    let popped = spool.pop();
    assert_eq!(popped.text, vec!['z']);
    assert_eq!(spool.into_iter().len(), 1);
}

#[test]
fn elipse_pop_shortens_before_the_ellipsis() {
    let mut spool = Spool::new();
    spool.push(Run { text: vec!['a', 'b', 'c'], font: RunFont::Resolved(0) });
    spool.push(Run { text: vec!['.'], font: RunFont::Resolved(0) });
    spool.push(Run { text: vec!['.'], font: RunFont::Resolved(0) });
    spool.push(Run { text: vec!['.'], font: RunFont::Resolved(0) });
    spool.elipse_pop();
    let runs = spool.into_iter();
    assert_eq!(concat(&runs), "ab...");
}

#[test]
fn elipse_pop_drops_whole_runs_when_few_remain() {
    let mut spool = Spool::new();
    spool.push(Run { text: vec!['.'], font: RunFont::Resolved(0) });
    spool.push(Run { text: vec!['.'], font: RunFont::Resolved(0) });
    spool.elipse_pop();
    assert_eq!(spool.into_iter().len(), 1);
    let mut empty = Spool::new();
    empty.elipse_pop();
    assert_eq!(empty.into_iter().len(), 0);
}

#[test]
fn fallback_discovery_appends_and_caches() {
    let mut fs = two_fonts();
    let heart_eyes = '\u{1F60D}';
    assert_eq!(fs.resolve(heart_eyes), None);
    let emoji_font = font(&[(heart_eyes, 16)], 7);
    let before = fs.fonts.len();
    let r = fs.apply_discovery(heart_eyes, DiscoveryOutcome::Matched(emoji_font));
    assert_eq!(r, Ok(RunFont::Resolved(2)));
    assert_eq!(fs.fonts.len(), before + 1);
    // a later request finds the cached font without another query
    assert_eq!(fs.resolve(heart_eyes), Some(2));
    let text: Vec<char> = vec![heart_eyes];
    assert_eq!(fs.next_missing(&text, 0), None);
}

#[test]
fn fallback_discovery_degrades_to_primary_without_caching() {
    let mut fs = two_fonts();
    let c = '\u{1F600}';
    let useless = font(&[('q', 9)], 7);
    let before = fs.fonts.len();
    let r = fs.apply_discovery(c, DiscoveryOutcome::Matched(useless));
    assert_eq!(r, Ok(RunFont::Resolved(0)));
    assert_eq!(fs.fonts.len(), before);
    assert_eq!(fs.run_font(c), RunFont::Resolved(0));
}

#[test]
fn fallback_discovery_outcomes_without_match() {
    let mut fs = two_fonts();
    let c = '\u{1F600}';
    assert_eq!(fs.apply_discovery(c, DiscoveryOutcome::NoMatch), Ok(RunFont::Unsupported));
    assert_eq!(
        fs.apply_discovery(c, DiscoveryOutcome::Unavailable),
        Err(LayoutError::FontResolution)
    );
}

#[test]
fn next_missing_reports_first_uncovered_position() {
    let fs = two_fonts();
    let text: Vec<char> = "ab\u{1F600}c\u{1F600}".chars().collect();
    assert_eq!(fs.next_missing(&text, 0), Some(2));
    assert_eq!(fs.next_missing(&text, 3), Some(4));
    assert_eq!(fs.next_missing(&text, 5), None);
}

#[test]
fn cursor_offset_measures_text_before_cursor() {
    let fs = two_fonts();
    // two characters before the cursor, ten pixels each, lrpad of four
    assert_eq!(cursor_offset("abcd", 2, &fs, 4), 21);
    assert_eq!(cursor_offset("abcd", 0, &fs, 4), 1);
    // a cursor past the end counts the whole text
    assert_eq!(cursor_offset("abcd", 9, &fs, 4), 41);
}

#[test]
fn cursor_visibility_against_ellipsis_and_field_edge() {
    assert!(cursor_visible(10, None, 20, 4));
    assert!(!cursor_visible(18, None, 20, 4));
    assert!(cursor_visible(10, Some(9), 20, 4));
    assert!(!cursor_visible(12, Some(9), 20, 4));
}

#[test]
fn input_field_width_choices() {
    // vertical list: the whole remaining row
    assert_eq!(input_field_width(2, 5, true, 200, 50, false, 80, 90), 150);
    // nothing matched: the whole remaining row
    assert_eq!(input_field_width(0, 0, true, 200, 50, false, 80, 90), 150);
    // overrun rendering: the input's own width, capped to the row
    assert_eq!(input_field_width(0, 5, true, 200, 50, true, 80, 90), 80);
    assert_eq!(input_field_width(0, 5, true, 200, 50, true, 300, 90), 150);
    // otherwise the configured width
    assert_eq!(input_field_width(0, 5, true, 200, 50, false, 80, 90), 90);
}
