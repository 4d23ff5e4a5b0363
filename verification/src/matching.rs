//! The match engine: ranking candidate items against the live input.
//!
//! Two interchangeable strategies. Classification buckets candidates as
//! exact, prefix or substring matches of the input (optionally case
//! folded) and concatenates the buckets, each keeping candidate order.
//! Fuzzy ranking scores candidates with an approximate subsequence
//! matcher, drops the unscored, and orders best score first, shorter
//! candidate first among equal scores, candidate order last.

use vstd::prelude::*;
use vstd::relations::sorted_by;
use vstd::relations::total_ordering;
use vstd::seq_lib::lemma_multiset_commutative;
use vstd::seq_lib::lemma_sorted_unique;

use crate::text::chars_vec;

verus! {

/// How a candidate relates to the input.
#[derive(Clone, Copy, PartialEq, Eq, Structural, Debug)]
pub enum MatchCode {
    Exact,
    Prefix,
    Substring,
    NoMatch,
}

/// One candidate of the menu.
#[derive(Debug)]
pub struct Item {
    pub text: String,
}

impl Item {
    pub fn new(text: String) -> (r: Item)
        ensures
            r.text == text,
    {
        Item { text }
    }
}

impl Clone for Item {
    fn clone(&self) -> (r: Self)
        ensures
            r == *self,
    {
        Item { text: self.text.clone() }
    }
}

/// `p` occurs in `t` starting at position `i`.
pub open spec fn occurs_at(t: Seq<char>, p: Seq<char>, i: int) -> bool {
    0 <= i && i + p.len() <= t.len() && t.subrange(i, i + p.len() as int) == p
}

/// `p` occurs somewhere in `t`.
pub open spec fn contains_seq(t: Seq<char>, p: Seq<char>) -> bool {
    exists|i: int| occurs_at(t, p, i)
}

/// The classification of candidate text against input text: equality
/// first, then prefix, then substring, else no match. The branches make
/// the four codes mutually exclusive and complete.
pub open spec fn classify_code(cand: Seq<char>, input: Seq<char>) -> MatchCode {
    if cand == input {
        MatchCode::Exact
    } else if input.is_prefix_of(cand) {
        MatchCode::Prefix
    } else if contains_seq(cand, input) {
        MatchCode::Substring
    } else {
        MatchCode::NoMatch
    }
}

/// Classification completeness and exclusivity: every candidate gets
/// exactly one code, and each code holds exactly on its own condition.
pub proof fn lemma_classify_exclusive(cand: Seq<char>, input: Seq<char>)
    ensures
        (classify_code(cand, input) == MatchCode::Exact) <==> cand == input,
        (classify_code(cand, input) == MatchCode::Prefix) <==> (input.is_prefix_of(cand) && cand
            != input),
        (classify_code(cand, input) == MatchCode::Substring) <==> (contains_seq(cand, input)
            && !input.is_prefix_of(cand) && cand != input),
        (classify_code(cand, input) == MatchCode::NoMatch) <==> (!contains_seq(cand, input)
            && !input.is_prefix_of(cand) && cand != input),
{
}

/// Whether `p` occurs in `t` at `at`, by direct comparison.
fn matches_at(t: &Vec<char>, p: &Vec<char>, at: usize) -> (r: bool)
    requires
        at + p@.len() <= t@.len(),
    ensures
        r == occurs_at(t@, p@, at as int),
{
    let tl = t.len();
    let mut j: usize = 0;
    while j < p.len()
        invariant
            at + p@.len() <= t@.len(),
            t@.len() == tl,
            j <= p@.len(),
            forall|m: int| 0 <= m < j ==> t@[at + m] == p@[m],
        decreases p@.len() - j,
    {
        if t[at + j] != p[j] {
            proof {
                assert(t@.subrange(at as int, at + p@.len() as int)[j as int] != p@[j as int]);
            }
            return false;
        }
        j = j + 1;
    }
    proof {
        assert(t@.subrange(at as int, at + p@.len() as int) =~= p@);
    }
    true
}

/// First position of `p` in `t`, if any.
pub fn find_first(t: &Vec<char>, p: &Vec<char>) -> (r: Option<usize>)
    ensures
        match r {
            Some(i) => occurs_at(t@, p@, i as int) && forall|j: int|
                0 <= j < i ==> !occurs_at(t@, p@, j),
            None => !contains_seq(t@, p@),
        },
{
    if p.len() > t.len() {
        return None;
    }
    if p.len() == 0 {
        proof {
            assert(t@.subrange(0, 0) =~= p@);
        }
        return Some(0);
    }
    let last = t.len() - p.len();
    let mut i: usize = 0;
    while i <= last
        invariant
            0 < p@.len() <= t@.len(),
            t@.len() <= usize::MAX,
            last == t@.len() - p@.len(),
            i <= last + 1,
            forall|j: int| 0 <= j < i ==> !occurs_at(t@, p@, j),
        decreases last + 1 - i,
    {
        if matches_at(t, p, i) {
            return Some(i);
        }
        i = i + 1;
    }
    proof {
        assert(forall|j: int| j > last ==> !occurs_at(t@, p@, j));
    }
    None
}

/// Classify one candidate character sequence against the input.
pub fn classify(cand: &Vec<char>, input: &Vec<char>) -> (r: MatchCode)
    ensures
        r == classify_code(cand@, input@),
{
    if input.len() == cand.len() && matches_at(cand, input, 0) {
        proof {
            assert(cand@.subrange(0, cand@.len() as int) =~= cand@);
        }
        MatchCode::Exact
    } else if input.len() <= cand.len() && matches_at(cand, input, 0) {
        MatchCode::Prefix
    } else {
        proof {
            if input@.is_prefix_of(cand@) {
                assert(occurs_at(cand@, input@, 0));
            }
            if cand@ == input@ {
                assert(cand@.subrange(0, cand@.len() as int) =~= cand@);
            }
        }
        match find_first(cand, input) {
            Some(_) => MatchCode::Substring,
            None => MatchCode::NoMatch,
        }
    }
}

/// The case folding of a character sequence, as the case-insensitive
/// strategy applies it to both candidate and input.
pub uninterp spec fn lower_of(s: Seq<char>) -> Seq<char>;

/// Relies on str::to_lowercase: the result is a function of the character
/// sequence alone, and an empty string lowercases to an empty string.
#[verifier::external_body]
fn lowercase(s: &str) -> (r: String)
    ensures
        r@ == lower_of(s@),
        s@.len() == 0 ==> r@.len() == 0,
{
    s.to_lowercase()
}

/// The text a candidate or the input is matched by: itself, or its case
/// folding when matching case-insensitively.
pub open spec fn eff_text(s: Seq<char>, case_sensitive: bool) -> Seq<char> {
    if case_sensitive {
        s
    } else {
        lower_of(s)
    }
}

/// The code an item gets for the given input and case mode.
pub open spec fn item_code(it: Item, input: Seq<char>, case_sensitive: bool) -> MatchCode {
    classify_code(eff_text(it.text@, case_sensitive), eff_text(input, case_sensitive))
}

/// Items whose code is `code`, in candidate order.
pub open spec fn with_code(input: Seq<char>, case_sensitive: bool, code: MatchCode) -> spec_fn(
    Item,
) -> bool {
    |it: Item| item_code(it, input, case_sensitive) == code
}

/// The classification strategy's output: all exact matches first, then
/// all prefix matches, then all substring matches, each group keeping
/// candidate order.
pub open spec fn classified_matches(items: Seq<Item>, input: Seq<char>, case_sensitive: bool) -> Seq<
    Item,
> {
    items.filter(with_code(input, case_sensitive, MatchCode::Exact)) + items.filter(
        with_code(input, case_sensitive, MatchCode::Prefix),
    ) + items.filter(with_code(input, case_sensitive, MatchCode::Substring))
}

proof fn lemma_filter_push(s: Seq<Item>, pred: spec_fn(Item) -> bool, x: Item)
    ensures
        (s.push(x)).filter(pred) == (if pred(x) {
            s.filter(pred).push(x)
        } else {
            s.filter(pred)
        }),
{
    reveal(Seq::filter);
    assert((s.push(x)).drop_last() =~= s);
    assert((s.push(x)).last() == x);
}

/// Rank the candidates for `input` by classification.
pub fn gen_matches(items: &Vec<Item>, input: &String, case_sensitive: bool) -> (r: Vec<Item>)
    ensures
        r@ == classified_matches(items@, input@, case_sensitive),
{
    let inp: Vec<char> = if case_sensitive {
        chars_vec(input.as_str())
    } else {
        let folded = lowercase(input.as_str());
        chars_vec(folded.as_str())
    };
    let ghost pe = with_code(input@, case_sensitive, MatchCode::Exact);
    let ghost pp = with_code(input@, case_sensitive, MatchCode::Prefix);
    let ghost ps = with_code(input@, case_sensitive, MatchCode::Substring);
    let mut exact: Vec<Item> = Vec::new();
    let mut prefix: Vec<Item> = Vec::new();
    let mut substring: Vec<Item> = Vec::new();
    let mut i: usize = 0;
    while i < items.len()
        invariant
            inp@ == eff_text(input@, case_sensitive),
            pe == with_code(input@, case_sensitive, MatchCode::Exact),
            pp == with_code(input@, case_sensitive, MatchCode::Prefix),
            ps == with_code(input@, case_sensitive, MatchCode::Substring),
            i <= items@.len(),
            exact@ == items@.subrange(0, i as int).filter(pe),
            prefix@ == items@.subrange(0, i as int).filter(pp),
            substring@ == items@.subrange(0, i as int).filter(ps),
        decreases items@.len() - i,
    {
        let it = &items[i];
        let cand: Vec<char> = if case_sensitive {
            chars_vec(it.text.as_str())
        } else {
            let folded = lowercase(it.text.as_str());
            chars_vec(folded.as_str())
        };
        let code = classify(&cand, &inp);
        proof {
            assert(items@.subrange(0, i + 1) =~= items@.subrange(0, i as int).push(
                items@[i as int],
            ));
            lemma_filter_push(items@.subrange(0, i as int), pe, items@[i as int]);
            lemma_filter_push(items@.subrange(0, i as int), pp, items@[i as int]);
            lemma_filter_push(items@.subrange(0, i as int), ps, items@[i as int]);
            assert(code == item_code(items@[i as int], input@, case_sensitive));
        }
        match code {
            MatchCode::Exact => exact.push(it.clone()),
            MatchCode::Prefix => prefix.push(it.clone()),
            MatchCode::Substring => substring.push(it.clone()),
            MatchCode::NoMatch => {},
        }
        i = i + 1;
    }
    proof {
        assert(items@.subrange(0, items@.len() as int) =~= items@);
    }
    let mut r = exact;
    r.append(&mut prefix);
    r.append(&mut substring);
    r
}

/// ASCII-case-insensitive character equality, as the fuzzy matcher
/// compares characters when ignoring case.
pub open spec fn ascii_case_eq(a: char, b: char) -> bool {
    ||| a == b
    ||| (is_ascii_alpha(a) && is_ascii_alpha(b) && (a as u32 == b as u32 + 32 || b as u32 == a
        as u32 + 32))
}

pub open spec fn is_ascii_alpha(c: char) -> bool {
    ('a' <= c && c <= 'z') || ('A' <= c && c <= 'Z')
}

pub open spec fn skim_char_equal(a: char, b: char, case_sensitive: bool) -> bool {
    if case_sensitive {
        a == b
    } else {
        ascii_case_eq(a, b)
    }
}

/// The fuzzy matcher's smart case: comparison is case-sensitive exactly
/// when the pattern holds an ASCII capital.
pub open spec fn has_ascii_upper(s: Seq<char>) -> bool {
    exists|i: int| 0 <= i < s.len() && 'A' <= #[trigger] s[i] && s[i] <= 'Z'
}

/// Greedy subsequence embedding of `pattern` into `choice`, comparing
/// characters with `skim_char_equal`.
pub open spec fn is_subseq_by(choice: Seq<char>, pattern: Seq<char>, case_sensitive: bool) -> bool
    decreases choice.len(),
{
    if pattern.len() == 0 {
        true
    } else if choice.len() == 0 {
        false
    } else if skim_char_equal(choice[0], pattern[0], case_sensitive) {
        is_subseq_by(choice.drop_first(), pattern.drop_first(), case_sensitive)
    } else {
        is_subseq_by(choice.drop_first(), pattern, case_sensitive)
    }
}

/// Whether the fuzzy matcher finds any match at all: the pattern embeds
/// into the choice as a subsequence, under smart case.
pub open spec fn skim_matches(choice: Seq<char>, pattern: Seq<char>) -> bool {
    is_subseq_by(choice, pattern, has_ascii_upper(pattern))
}

/// The fuzzy matcher's score for a choice and pattern.
pub uninterp spec fn skim_score(choice: Seq<char>, pattern: Seq<char>) -> Option<i64>;

/// Relies on fuzzy_matcher's `SkimMatcherV2` in its default
/// configuration: `fuzzy_match` depends on the two character sequences
/// alone; it returns a score exactly when the pattern is empty or embeds
/// into the choice as a smart-case subsequence, and an empty pattern
/// scores zero.
#[verifier::external_body]
fn fuzzy_match_score(choice: &str, pattern: &str) -> (r: Option<i64>)
    ensures
        r == skim_score(choice@, pattern@),
        r is Some <==> (pattern@.len() == 0 || skim_matches(choice@, pattern@)),
        pattern@.len() == 0 ==> r == Some(0i64),
{
    let matcher = fuzzy_matcher::skim::SkimMatcherV2::default();
    fuzzy_matcher::FuzzyMatcher::fuzzy_match(&matcher, choice, pattern)
}

/// Byte length of a text, the secondary ranking key.
pub open spec fn spec_byte_len(s: Seq<char>) -> nat {
    vstd::utf8::encode_utf8(s).len()
}

pub open spec fn score_val(o: Option<i64>) -> i64 {
    match o {
        Some(s) => s,
        None => 0,
    }
}

/// A scored candidate is kept when the matcher returned a score and the
/// score is not negative.
pub open spec fn is_kept(o: Option<i64>) -> bool {
    match o {
        Some(s) => s >= 0,
        None => false,
    }
}

/// Score and position of every candidate.
pub open spec fn scored_of(items: Seq<Item>, inp: Seq<char>) -> Seq<(Option<i64>, int)> {
    Seq::new(items.len(), |i: int| (skim_score(items[i].text@, inp), i))
}

pub open spec fn kept_pred() -> spec_fn((Option<i64>, int)) -> bool {
    |e: (Option<i64>, int)| is_kept(e.0)
}

pub open spec fn key_of(items: Seq<Item>) -> spec_fn((Option<i64>, int)) -> (i64, usize, usize) {
    |e: (Option<i64>, int)|
        (score_val(e.0), spec_byte_len(items[e.1].text@) as usize, e.1 as usize)
}

pub open spec fn item_at(items: Seq<Item>) -> spec_fn((i64, usize, usize)) -> Item {
    |k: (i64, usize, usize)| items[k.2 as int]
}

/// The ranking keys of the kept candidates: (score, byte length, position
/// in the candidate list).
pub open spec fn fuzzy_keys(items: Seq<Item>, inp: Seq<char>) -> Seq<(i64, usize, usize)> {
    scored_of(items, inp).filter(kept_pred()).map_values(key_of(items))
}

/// Ranking order: higher score first; among equal scores the shorter
/// text; among equal lengths the earlier candidate.
pub open spec fn key_leq(a: (i64, usize, usize), b: (i64, usize, usize)) -> bool {
    ||| a.0 > b.0
    ||| (a.0 == b.0 && a.1 < b.1)
    ||| (a.0 == b.0 && a.1 == b.1 && a.2 <= b.2)
}

pub open spec fn key_order() -> spec_fn((i64, usize, usize), (i64, usize, usize)) -> bool {
    |a: (i64, usize, usize), b: (i64, usize, usize)| key_leq(a, b)
}

/// The fuzzy strategy's output: the kept candidates, sorted by ranking
/// key. The key ends with the candidate position, so the order is total
/// and ties between equal scores and lengths keep candidate order.
pub open spec fn fuzzy_ranked(items: Seq<Item>, inp: Seq<char>) -> Seq<Item> {
    fuzzy_keys(items, inp).sort_by(key_order()).map_values(item_at(items))
}

pub proof fn lemma_key_order_total()
    ensures
        total_ordering(key_order()),
{
    let leq = key_order();
    assert forall|a: (i64, usize, usize), b: (i64, usize, usize)| #[trigger]
        leq(a, b) && #[trigger] leq(b, a) implies a == b by {
        assert(a.0 == b.0 && a.1 == b.1 && a.2 == b.2);
    }
    assert forall|a: (i64, usize, usize), b: (i64, usize, usize)| #[trigger]
        leq(a, b) || #[trigger] leq(b, a) by {}
}

fn key_leq_exec(a: (i64, usize, usize), b: (i64, usize, usize)) -> (r: bool)
    ensures
        r == key_leq(a, b),
{
    a.0 > b.0 || (a.0 == b.0 && (a.1 < b.1 || (a.1 == b.1 && a.2 <= b.2)))
}

proof fn lemma_insert_multiset<T>(s: Seq<T>, p: int, x: T)
    requires
        0 <= p <= s.len(),
    ensures
        s.insert(p, x).to_multiset() =~= s.to_multiset().insert(x),
{
    broadcast use vstd::seq_lib::group_to_multiset_ensures;
    broadcast use vstd::multiset::group_multiset_axioms;

    let front = s.subrange(0, p);
    let back = s.subrange(p, s.len() as int);
    assert(s =~= front + back);
    assert(s.insert(p, x) =~= front.push(x) + back);
    lemma_multiset_commutative(front, back);
    lemma_multiset_commutative(front.push(x), back);
    assert(front.push(x).to_multiset() =~= front.to_multiset().insert(x));
}

/// Insert one key into a sorted key vector, keeping it sorted.
fn insert_key(v: &mut Vec<(i64, usize, usize)>, x: (i64, usize, usize))
    requires
        sorted_by(old(v)@, key_order()),
    ensures
        sorted_by(final(v)@, key_order()),
        final(v)@.to_multiset() == old(v)@.to_multiset().insert(x),
{
    let mut p: usize = 0;
    while p < v.len() && key_leq_exec(v[p], x)
        invariant
            p <= v@.len(),
            forall|k: int| 0 <= k < p ==> key_leq(#[trigger] v@[k], x),
        decreases v@.len() - p,
    {
        p = p + 1;
    }
    let ghost prev = v@;
    v.insert(p, x);
    proof {
        lemma_insert_multiset(prev, p as int, x);
        let leq = key_order();
        assert(forall|a: (i64, usize, usize), b: (i64, usize, usize)| #[trigger]
            leq(a, b) == key_leq(a, b));
        if p < prev.len() {
            assert(!key_leq(prev[p as int], x));
            assert(key_leq(x, prev[p as int]));
        }
        assert(sorted_by(v@, key_order())) by {
            assert forall|i: int, j: int| 0 <= i < j < v@.len() implies #[trigger] leq(
                v@[i],
                v@[j],
            ) by {
                prev.insert_ensures(p as int, x);
                if j < p {
                    assert(leq(prev[i], prev[j]));
                } else if i < p && j == p {
                    assert(key_leq(prev[i], x));
                } else if i == p {
                    assert(v@[j] == prev[j - 1]);
                    if p as int == j - 1 {
                        assert(key_leq(x, prev[p as int]));
                    } else {
                        assert(leq(prev[p as int], prev[j - 1]));
                        assert(key_leq(x, prev[p as int]));
                    }
                } else if i < p && j > p {
                    assert(v@[i] == prev[i] && v@[j] == prev[j - 1]);
                    if p as int == j - 1 {
                        assert(key_leq(prev[i], x));
                    } else {
                        assert(leq(prev[i], prev[j - 1]));
                    }
                } else {
                    assert(v@[i] == prev[i - 1] && v@[j] == prev[j - 1]);
                    assert(leq(prev[i - 1], prev[j - 1]));
                }
            }
        }
    }
}

/// Sort keys by the ranking order.
fn sort_keys(keys: &Vec<(i64, usize, usize)>) -> (r: Vec<(i64, usize, usize)>)
    ensures
        sorted_by(r@, key_order()),
        r@.to_multiset() == keys@.to_multiset(),
{
    let mut out: Vec<(i64, usize, usize)> = Vec::new();
    let mut i: usize = 0;
    proof {
        broadcast use vstd::seq_lib::group_to_multiset_ensures;

        assert(out@.to_multiset() =~= keys@.subrange(0, 0).to_multiset()) by {
            assert(keys@.subrange(0, 0) =~= out@);
        }
    }
    while i < keys.len()
        invariant
            i <= keys@.len(),
            sorted_by(out@, key_order()),
            out@.to_multiset() == keys@.subrange(0, i as int).to_multiset(),
        decreases keys@.len() - i,
    {
        proof {
            broadcast use vstd::seq_lib::group_to_multiset_ensures;

            assert(keys@.subrange(0, i + 1) =~= keys@.subrange(0, i as int).push(
                keys@[i as int],
            ));
        }
        insert_key(&mut out, keys[i]);
        i = i + 1;
    }
    proof {
        assert(keys@.subrange(0, keys@.len() as int) =~= keys@);
    }
    out
}

/// Everything a ranking key says about the candidate it points at.
pub open spec fn key_consistent(items: Seq<Item>, inp: Seq<char>, k: (i64, usize, usize)) -> bool {
    &&& k.2 < items.len()
    &&& skim_score(items[k.2 as int].text@, inp) == Some(k.0)
    &&& k.0 >= 0
    &&& k.1 == spec_byte_len(items[k.2 as int].text@) as usize
}

proof fn lemma_filter_elements<T>(s: Seq<T>, pred: spec_fn(T) -> bool)
    ensures
        forall|j: int| 0 <= j < s.filter(pred).len() ==> s.contains(#[trigger] s.filter(pred)[j]),
    decreases s.len(),
{
    reveal(Seq::filter);
    if s.len() > 0 {
        lemma_filter_elements(s.drop_last(), pred);
        let f = s.filter(pred);
        let fd = s.drop_last().filter(pred);
        assert forall|j: int| 0 <= j < f.len() implies s.contains(#[trigger] f[j]) by {
            if j < fd.len() {
                assert(s.drop_last().contains(fd[j]));
                let w = choose|w: int| 0 <= w < s.drop_last().len() && s.drop_last()[w] == fd[j];
                assert(s[w] == f[j]);
            } else {
                assert(f[j] == s.last());
                assert(s[s.len() - 1] == s.last());
            }
        }
    }
}

/// Every ranking key describes its candidate truthfully.
pub proof fn lemma_fuzzy_keys_consistent(items: Seq<Item>, inp: Seq<char>)
    requires
        items.len() <= usize::MAX,
    ensures
        forall|j: int|
            0 <= j < fuzzy_keys(items, inp).len() ==> key_consistent(
                items,
                inp,
                #[trigger] fuzzy_keys(items, inp)[j],
            ),
{
    broadcast use vstd::seq_lib::group_filter_ensures;

    let base = scored_of(items, inp);
    let pred = kept_pred();
    let filtered = base.filter(pred);
    lemma_filter_elements(base, pred);
    assert forall|j: int| 0 <= j < fuzzy_keys(items, inp).len() implies key_consistent(
        items,
        inp,
        #[trigger] fuzzy_keys(items, inp)[j],
    ) by {
        assert(fuzzy_keys(items, inp) == filtered.map_values(key_of(items)));
        assert(0 <= j < filtered.len());
        assert(filtered.map_values(key_of(items))[j] == key_of(items)(filtered[j]));
        assert(base.contains(filtered[j]));
        let w = choose|w: int| 0 <= w < base.len() && base[w] == filtered[j];
        assert(base[w] == (skim_score(items[w].text@, inp), w));
        assert(pred(filtered[j]));
        assert(is_kept(filtered[j].0));
    }
}

/// Rank the candidates for `input` by fuzzy score. Candidates the matcher
/// gives no score — in particular, any candidate that a non-empty input
/// does not embed into as a subsequence — are absent from the output.
pub fn gen_matches_fuzzy(items: &Vec<Item>, input: &String) -> (r: Vec<Item>)
    ensures
        r@ == fuzzy_ranked(items@, input@),
        forall|i: int|
            0 <= i < items@.len() && input@.len() > 0 && !skim_matches(
                (#[trigger] items@[i]).text@,
                input@,
            ) ==> !r@.contains(items@[i]),
{
    let ghost base = scored_of(items@, input@);
    let ghost pred = kept_pred();
    let ghost f = key_of(items@);
    let mut keys: Vec<(i64, usize, usize)> = Vec::new();
    let mut i: usize = 0;
    while i < items.len()
        invariant
            i <= items@.len(),
            base == scored_of(items@, input@),
            pred == kept_pred(),
            f == key_of(items@),
            keys@ == base.subrange(0, i as int).filter(pred).map_values(f),
            forall|j: int|
                0 <= j < i ==> (skim_score((#[trigger] items@[j]).text@, input@) is Some <==> (
                input@.len() == 0 || skim_matches(items@[j].text@, input@))),
        decreases items@.len() - i,
    {
        let sc = fuzzy_match_score(items[i].text.as_str(), input.as_str());
        proof {
            assert(base.subrange(0, i + 1) =~= base.subrange(0, i as int).push(
                base[i as int],
            ));
            assert(base[i as int] == (skim_score(items@[i as int].text@, input@), i as int));
            reveal(Seq::filter);
            assert(base.subrange(0, i + 1).filter(pred) == (if pred(base[i as int]) {
                base.subrange(0, i as int).filter(pred).push(base[i as int])
            } else {
                base.subrange(0, i as int).filter(pred)
            })) by {
                assert(base.subrange(0, i + 1).drop_last() =~= base.subrange(0, i as int));
                assert(base.subrange(0, i + 1).last() == base[i as int]);
            }
        }
        match sc {
            Some(s) => {
                if s >= 0 {
                    let bl = items[i].text.as_str().len();
                    keys.push((s, bl, i));
                    proof {
                        assert(keys@ =~= base.subrange(0, i as int).filter(pred).map_values(
                            f,
                        ).push(f(base[i as int])));
                    }
                }
            },
            None => {},
        }
        i = i + 1;
    }
    proof {
        assert(base.subrange(0, base.len() as int) =~= base);
        assert(keys@ == fuzzy_keys(items@, input@));
    }
    let sorted = sort_keys(&keys);
    proof {
        lemma_key_order_total();
        fuzzy_keys(items@, input@).lemma_sort_by_ensures(key_order());
        lemma_sorted_unique(
            sorted@,
            fuzzy_keys(items@, input@).sort_by(key_order()),
            key_order(),
        );
        assert(sorted@ == fuzzy_keys(items@, input@).sort_by(key_order()));
        lemma_fuzzy_keys_consistent(items@, input@);
        broadcast use vstd::seq_lib::group_to_multiset_ensures;

        assert forall|j: int| 0 <= j < sorted@.len() implies key_consistent(
            items@,
            input@,
            #[trigger] sorted@[j],
        ) by {
            assert(sorted@.to_multiset().count(sorted@[j]) > 0);
            assert(fuzzy_keys(items@, input@).contains(sorted@[j]));
            let w = choose|w: int|
                0 <= w < fuzzy_keys(items@, input@).len() && fuzzy_keys(items@, input@)[w]
                    == sorted@[j];
        }
    }
    let mut out: Vec<Item> = Vec::new();
    let ghost g = item_at(items@);
    let mut j: usize = 0;
    while j < sorted.len()
        invariant
            j <= sorted@.len(),
            items@.len() <= usize::MAX,
            g == item_at(items@),
            forall|m: int|
                0 <= m < sorted@.len() ==> key_consistent(items@, input@, #[trigger] sorted@[m]),
            out@ == sorted@.subrange(0, j as int).map_values(g),
        decreases sorted@.len() - j,
    {
        let idx = sorted[j].2;
        out.push(items[idx].clone());
        proof {
            assert(sorted@.subrange(0, j + 1) =~= sorted@.subrange(0, j as int).push(
                sorted@[j as int],
            ));
            assert(out@ =~= sorted@.subrange(0, j + 1).map_values(g));
        }
        j = j + 1;
    }
    proof {
        assert(sorted@.subrange(0, sorted@.len() as int) =~= sorted@);
        assert(out@ == fuzzy_ranked(items@, input@));
        assert forall|i0: int|
            0 <= i0 < items@.len() && input@.len() > 0 && !skim_matches(
                (#[trigger] items@[i0]).text@,
                input@,
            ) implies !out@.contains(items@[i0]) by {
            if out@.contains(items@[i0]) {
                let j0 = choose|j0: int| 0 <= j0 < out@.len() && out@[j0] == items@[i0];
                let k = sorted@[j0];
                assert(key_consistent(items@, input@, k));
                assert(items@[k.2 as int].text@ == items@[i0].text@);
                assert(skim_score(items@[i0].text@, input@) is Some);
            }
        }
    }
    out
}

/// Fuzzy tie-break: among the ranked candidates, one the matcher scores
/// equal to a later one is never longer than it.
pub proof fn lemma_fuzzy_tie_break(items: Seq<Item>, inp: Seq<char>, j1: int, j2: int)
    requires
        items.len() <= usize::MAX,
        0 <= j1 < j2 < fuzzy_ranked(items, inp).len(),
        skim_score(fuzzy_ranked(items, inp)[j1].text@, inp) == skim_score(
            fuzzy_ranked(items, inp)[j2].text@,
            inp,
        ),
    ensures
        spec_byte_len(fuzzy_ranked(items, inp)[j1].text@) as usize <= spec_byte_len(
            fuzzy_ranked(items, inp)[j2].text@,
        ) as usize,
{
    broadcast use vstd::seq_lib::group_to_multiset_ensures;

    lemma_key_order_total();
    let keys = fuzzy_keys(items, inp);
    keys.lemma_sort_by_ensures(key_order());
    lemma_fuzzy_keys_consistent(items, inp);
    let sorted = keys.sort_by(key_order());
    let k1 = sorted[j1];
    let k2 = sorted[j2];
    assert(key_consistent(items, inp, k1)) by {
        assert(sorted.to_multiset().count(k1) > 0);
        assert(keys.contains(k1));
        let w = choose|w: int| 0 <= w < keys.len() && keys[w] == k1;
    }
    assert(key_consistent(items, inp, k2)) by {
        assert(sorted.to_multiset().count(k2) > 0);
        assert(keys.contains(k2));
        let w = choose|w: int| 0 <= w < keys.len() && keys[w] == k2;
    }
    assert(fuzzy_ranked(items, inp)[j1] == items[k1.2 as int]);
    assert(fuzzy_ranked(items, inp)[j2] == items[k2.2 as int]);
    assert(key_order()(k1, k2));
    assert(k1.0 == k2.0);
}

} // verus!
