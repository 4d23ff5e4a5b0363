//! Menu configuration: the color schemes, layout switches, and the
//! validation and parsing of the values a front end hands in.

use vstd::prelude::*;
use vstd::string::StringExecFns;

verus! {

/// The drawing schemes, in slot order.
pub enum Schemes {
    SchemeNorm,
    SchemeSel,
    SchemeOut,
    SchemeLast,
}

impl Schemes {
    /// Slot of this scheme in the color table.
    pub fn index(&self) -> (r: usize)
        ensures
            r == self.spec_index(),
    {
        match self {
            Schemes::SchemeNorm => 0,
            Schemes::SchemeSel => 1,
            Schemes::SchemeOut => 2,
            Schemes::SchemeLast => 3,
        }
    }

    pub open spec fn spec_index(self) -> usize {
        match self {
            Schemes::SchemeNorm => 0,
            Schemes::SchemeSel => 1,
            Schemes::SchemeOut => 2,
            Schemes::SchemeLast => 3,
        }
    }
}

/// The two colors of a scheme.
pub enum Clrs {
    ColFg,
    ColBg,
}

impl Clrs {
    pub fn index(&self) -> (r: usize)
        ensures
            r == self.spec_index(),
    {
        match self {
            Clrs::ColFg => 0,
            Clrs::ColBg => 1,
        }
    }

    pub open spec fn spec_index(self) -> usize {
        match self {
            Clrs::ColFg => 0,
            Clrs::ColBg => 1,
        }
    }
}

/// How wide the input field is by default.
#[derive(Clone, Copy, PartialEq, Eq, Structural, Debug)]
pub enum DefaultWidth {
    Min,
    Items,
    Max,
    Custom(u8),
}

/// Foreground and background color strings of one scheme.
pub struct SchemeColors {
    pub fg: String,
    pub bg: String,
}

/// The menu's configuration, as plain values.
pub struct Config {
    pub lines: u32,
    pub topbar: bool,
    pub prompt: String,
    pub promptw: i32,
    pub fontstrings: Vec<String>,
    pub fast: bool,
    pub embed: u64,
    pub case_sensitive: bool,
    pub mon: i32,
    pub colors: Vec<SchemeColors>,
    pub render_minheight: u32,
    pub render_overrun: bool,
    pub render_flex: bool,
    pub render_rightalign: bool,
    pub render_default_width: DefaultWidth,
    pub nostdin: bool,
}

impl Config {
    /// One color pair per scheme.
    pub open spec fn wf(self) -> bool {
        self.colors@.len() == 3
    }
}

impl Default for Config {
    /// The stock configuration: one monospace font, grey-on-dark normal
    /// scheme, highlighted selection scheme.
    fn default() -> (r: Config)
        ensures
            r.wf(),
            r.lines == 0,
            r.topbar == true,
            r.prompt@.len() == 0,
            r.promptw == 0,
            r.fontstrings@.len() == 1 && r.fontstrings@[0]@ == "mono:size=10"@,
            r.fast == false,
            r.embed == 0,
            r.case_sensitive == true,
            r.mon == -1,
            r.colors@.len() == 3,
            r.colors@[0].fg@ == "#bbbbbb"@ && r.colors@[0].bg@ == "#222222"@,
            r.colors@[1].fg@ == "#eeeeee"@ && r.colors@[1].bg@ == "#005577"@,
            r.colors@[2].fg@ == "#000000"@ && r.colors@[2].bg@ == "#00ffff"@,
            r.render_minheight == 4,
            r.render_overrun == false,
            r.render_flex == false,
            r.render_rightalign == false,
            r.render_default_width == DefaultWidth::Items,
            r.nostdin == false,
    {
        let mut fontstrings: Vec<String> = Vec::new();
        fontstrings.push(String::from_str("mono:size=10"));
        let mut colors: Vec<SchemeColors> = Vec::new();
        colors.push(
            SchemeColors { fg: String::from_str("#bbbbbb"), bg: String::from_str("#222222") },
        );
        colors.push(
            SchemeColors { fg: String::from_str("#eeeeee"), bg: String::from_str("#005577") },
        );
        colors.push(
            SchemeColors { fg: String::from_str("#000000"), bg: String::from_str("#00ffff") },
        );
        Config {
            lines: 0,
            topbar: true,
            prompt: String::new(),
            promptw: 0,
            fontstrings,
            fast: false,
            embed: 0,
            case_sensitive: true,
            mon: -1,
            colors,
            render_minheight: 4,
            render_overrun: false,
            render_flex: false,
            render_rightalign: false,
            render_default_width: DefaultWidth::Items,
            nostdin: false,
        }
    }
}

pub open spec fn is_hex_digit(c: char) -> bool {
    ('0' <= c && c <= '9') || ('a' <= c && c <= 'f') || ('A' <= c && c <= 'F')
}

/// A well-formed color argument: `#` followed by six or three hex digits.
pub open spec fn is_color_format(s: Seq<char>) -> bool {
    &&& (s.len() == 7 || s.len() == 4)
    &&& s[0] == '#'
    &&& forall|i: int| 1 <= i < s.len() ==> is_hex_digit(#[trigger] s[i])
}

/// Validate a color argument.
pub fn validate_color(s: &Vec<char>) -> (r: bool)
    ensures
        r == is_color_format(s@),
{
    if s.len() != 7 && s.len() != 4 {
        return false;
    }
    if s[0] != '#' {
        return false;
    }
    let mut i: usize = 1;
    while i < s.len()
        invariant
            1 <= i <= s@.len(),
            forall|j: int| 1 <= j < i ==> is_hex_digit(#[trigger] s@[j]),
        decreases s@.len() - i,
    {
        let c = s[i];
        let ok = ('0' <= c && c <= '9') || ('a' <= c && c <= 'f') || ('A' <= c && c <= 'F');
        if !ok {
            return false;
        }
        i = i + 1;
    }
    true
}

pub open spec fn is_dec_digit(c: char) -> bool {
    '0' <= c && c <= '9'
}

pub open spec fn all_digits(s: Seq<char>) -> bool {
    s.len() > 0 && forall|i: int| 0 <= i < s.len() ==> is_dec_digit(#[trigger] s[i])
}

/// Value of a decimal digit string.
pub open spec fn dec_value(s: Seq<char>) -> int
    decreases s.len(),
{
    if s.len() == 0 {
        0
    } else {
        dec_value(s.drop_last()) * 10 + (s.last() as int - 48)
    }
}

proof fn lemma_dec_value_grows(s: Seq<char>, k: int)
    requires
        all_digits(s),
        0 <= k <= s.len(),
    ensures
        0 <= dec_value(s.subrange(0, k)) <= dec_value(s),
    decreases s.len() - k,
{
    if k == s.len() {
        assert(s.subrange(0, k) =~= s);
        lemma_dec_value_nonneg(s);
    } else {
        lemma_dec_value_grows(s, k + 1);
        let p = s.subrange(0, k);
        let q = s.subrange(0, k + 1);
        assert(q.drop_last() =~= p);
        assert(q.last() == s[k]);
        lemma_dec_value_nonneg(p);
        assert(dec_value(q) == dec_value(p) * 10 + (s[k] as int - 48));
        assert(dec_value(p) * 10 >= dec_value(p)) by (nonlinear_arith)
            requires
                dec_value(p) >= 0,
        ;
    }
}

proof fn lemma_dec_value_nonneg(s: Seq<char>)
    requires
        forall|i: int| 0 <= i < s.len() ==> is_dec_digit(#[trigger] s[i]),
    ensures
        dec_value(s) >= 0,
    decreases s.len(),
{
    if s.len() > 0 {
        assert(forall|i: int|
            0 <= i < s.drop_last().len() ==> is_dec_digit(#[trigger] s.drop_last()[i]));
        lemma_dec_value_nonneg(s.drop_last());
        assert(dec_value(s.drop_last()) * 10 >= 0) by (nonlinear_arith)
            requires
                dec_value(s.drop_last()) >= 0,
        ;
    }
}

/// The digits of an unsigned decimal argument: everything after one
/// optional leading plus sign.
pub open spec fn unsigned_digits(s: Seq<char>) -> Seq<char> {
    if s.len() > 0 && s[0] == '+' {
        s.drop_first()
    } else {
        s
    }
}

/// What parsing an unsigned 64-bit decimal argument yields.
pub open spec fn spec_parse_u64(s: Seq<char>) -> Option<u64> {
    let d = unsigned_digits(s);
    if all_digits(d) && dec_value(d) <= u64::MAX {
        Some(dec_value(d) as u64)
    } else {
        None
    }
}

/// Parse an unsigned 64-bit decimal argument: an optional plus sign, then
/// digits, rejecting overflow.
pub fn parse_u64(s: &Vec<char>) -> (r: Option<u64>)
    ensures
        r == spec_parse_u64(s@),
{
    let start: usize = if s.len() > 0 && s[0] == '+' {
        1
    } else {
        0
    };
    let ghost d = unsigned_digits(s@);
    proof {
        if s@.len() > 0 && s@[0] == '+' {
            assert(d =~= s@.subrange(1, s@.len() as int));
        } else {
            assert(d =~= s@);
        }
    }
    if start == s.len() {
        return None;
    }
    let mut acc: u64 = 0;
    let mut i: usize = start;
    while i < s.len()
        invariant
            start <= i <= s@.len(),
            start == (if s@.len() > 0 && s@[0] == '+' {
                1int
            } else {
                0int
            }),
            d == unsigned_digits(s@),
            d =~= s@.subrange(start as int, s@.len() as int),
            forall|j: int| start <= j < i ==> is_dec_digit(#[trigger] s@[j]),
            acc as int == dec_value(s@.subrange(start as int, i as int)),
        decreases s@.len() - i,
    {
        let c = s[i];
        if !('0' <= c && c <= '9') {
            proof {
                assert(d[i - start] == s@[i as int]);
                assert(!all_digits(d));
            }
            return None;
        }
        let digit = (c as u32 - 48) as u64;
        proof {
            let p = s@.subrange(start as int, i as int);
            let q = s@.subrange(start as int, i + 1);
            assert(q.drop_last() =~= p);
            assert(q.last() == s@[i as int]);
        }
        if acc > (0xFFFF_FFFF_FFFF_FFFF - digit) / 10 {
            proof {
                let q = s@.subrange(start as int, i + 1);
                assert(dec_value(q) == acc as int * 10 + (digit as int));
                assert(acc as int * 10 + (digit as int) > u64::MAX);
                if all_digits(d) {
                    assert(q =~= d.subrange(0, i + 1 - start));
                    lemma_dec_value_grows(d, i + 1 - start);
                }
            }
            return None;
        }
        acc = acc * 10 + digit;
        i = i + 1;
    }
    proof {
        assert(s@.subrange(start as int, s@.len() as int) =~= d);
    }
    Some(acc)
}

/// What parsing an unsigned 32-bit decimal argument yields.
pub open spec fn spec_parse_u32(s: Seq<char>) -> Option<u32> {
    match spec_parse_u64(s) {
        Some(v) => if v <= u32::MAX {
            Some(v as u32)
        } else {
            None
        },
        None => None,
    }
}

/// Parse an unsigned 32-bit decimal argument.
pub fn parse_u32(s: &Vec<char>) -> (r: Option<u32>)
    ensures
        r == spec_parse_u32(s@),
{
    match parse_u64(s) {
        Some(v) => if v <= 0xFFFF_FFFF {
            Some(v as u32)
        } else {
            None
        },
        None => None,
    }
}

/// What parsing a signed 32-bit decimal argument yields: an optional
/// sign, then digits, within the 32-bit range.
pub open spec fn spec_parse_i32(s: Seq<char>) -> Option<i32> {
    if s.len() > 0 && s[0] == '-' {
        let d = s.drop_first();
        if all_digits(d) && dec_value(d) <= 0x8000_0000 {
            Some((-dec_value(d)) as i32)
        } else {
            None
        }
    } else {
        match spec_parse_u64(s) {
            Some(v) => if v <= 0x7FFF_FFFF {
                Some(v as i32)
            } else {
                None
            },
            None => None,
        }
    }
}

/// Parse a signed 32-bit decimal argument.
pub fn parse_i32(s: &Vec<char>) -> (r: Option<i32>)
    ensures
        r == spec_parse_i32(s@),
{
    if s.len() > 0 && s[0] == '-' {
        let mut digits: Vec<char> = Vec::new();
        let mut i: usize = 1;
        while i < s.len()
            invariant
                1 <= i <= s@.len(),
                digits@ == s@.subrange(1, i as int),
            decreases s@.len() - i,
        {
            digits.push(s[i]);
            proof {
                assert(digits@ =~= s@.subrange(1, i + 1));
            }
            i = i + 1;
        }
        proof {
            assert(digits@ =~= s@.drop_first());
        }
        if digits.len() > 0 && digits[0] == '+' {
            // a second sign is not a digit
            proof {
                assert(digits@[0] == '+');
                assert(!is_dec_digit(digits@[0]));
                assert(!all_digits(digits@));
            }
            return None;
        }
        proof {
            assert(unsigned_digits(digits@) == digits@);
        }
        match parse_u64(&digits) {
            Some(v) => if v <= 0x8000_0000 {
                proof {
                    assert(all_digits(s@.drop_first()));
                    lemma_dec_value_nonneg(s@.drop_first());
                    assert(dec_value(s@.drop_first()) == v as int);
                    assert(spec_parse_i32(s@) == Some((-(v as int)) as i32));
                }
                let neg: i64 = -(v as i64);
                Some(neg as i32)
            } else {
                proof {
                    lemma_dec_value_nonneg(s@.drop_first());
                    assert(dec_value(s@.drop_first()) > 0x8000_0000);
                }
                None
            },
            None => None,
        }
    } else {
        match parse_u64(s) {
            Some(v) => if v <= 0x7FFF_FFFF {
                Some(v as i32)
            } else {
                None
            },
            None => None,
        }
    }
}

/// What a `render_default_width` argument denotes: one of the three named
/// widths, or `custom=N` with `N` a percentage of at most 100.
pub open spec fn spec_parse_default_width(s: Seq<char>) -> Option<DefaultWidth> {
    if !s.contains('=') {
        if s == seq!['m', 'i', 'n'] {
            Some(DefaultWidth::Min)
        } else if s == seq!['i', 't', 'e', 'm', 's'] {
            Some(DefaultWidth::Items)
        } else if s == seq!['m', 'a', 'x'] {
            Some(DefaultWidth::Max)
        } else {
            None
        }
    } else {
        let k = first_eq_sign(s, 0);
        let head = s.subrange(0, k);
        let tail = s.subrange(k + 1, s.len() as int);
        if head == seq!['c', 'u', 's', 't', 'o', 'm'] && !tail.contains('=') && (
        match spec_parse_u64(tail) {
            Some(v) => v <= 100,
            None => false,
        }) {
            Some(DefaultWidth::Custom(spec_parse_u64(tail)->Some_0 as u8))
        } else {
            None
        }
    }
}

/// Index of the first `=` at or after `i`.
pub open spec fn first_eq_sign(s: Seq<char>, i: int) -> int
    decreases s.len() - i,
{
    if i < 0 || i >= s.len() {
        s.len() as int
    } else if s[i] == '=' {
        i
    } else {
        first_eq_sign(s, i + 1)
    }
}

proof fn lemma_first_eq_sign(s: Seq<char>, i: int)
    requires
        0 <= i <= s.len(),
    ensures
        i <= first_eq_sign(s, i) <= s.len(),
        first_eq_sign(s, i) < s.len() ==> s[first_eq_sign(s, i)] == '=',
        forall|j: int| i <= j < first_eq_sign(s, i) ==> s[j] != '=',
        (first_eq_sign(s, i) < s.len()) == (exists|j: int|
            i <= j < s.len() && #[trigger] s[j] == '='),
    decreases s.len() - i,
{
    if i < s.len() && s[i] != '=' {
        lemma_first_eq_sign(s, i + 1);
    }
}

/// Parse a `render_default_width` argument.
pub fn parse_default_width(s: &Vec<char>) -> (r: Option<DefaultWidth>)
    ensures
        r == spec_parse_default_width(s@),
{
    let mut i: usize = 0;
    while i < s.len() && s[i] != '='
        invariant
            i <= s@.len(),
            forall|j: int| 0 <= j < i ==> s@[j] != '=',
        decreases s@.len() - i,
    {
        i = i + 1;
    }
    let eq = i;
    proof {
        lemma_first_eq_sign(s@, 0);
        assert(first_eq_sign(s@, 0) == eq as int);
    }
    if eq == s.len() {
        proof {
            assert(!s@.contains('='));
        }
        let is_min = s.len() == 3 && s[0] == 'm' && s[1] == 'i' && s[2] == 'n';
        if is_min {
            proof {
                assert(s@ =~= seq!['m', 'i', 'n']);
            }
            return Some(DefaultWidth::Min);
        }
        let is_items = s.len() == 5 && s[0] == 'i' && s[1] == 't' && s[2] == 'e' && s[3] == 'm'
            && s[4] == 's';
        if is_items {
            proof {
                assert(s@ =~= seq!['i', 't', 'e', 'm', 's']);
            }
            return Some(DefaultWidth::Items);
        }
        let is_max = s.len() == 3 && s[0] == 'm' && s[1] == 'a' && s[2] == 'x';
        if is_max {
            proof {
                assert(s@ =~= seq!['m', 'a', 'x']);
            }
            return Some(DefaultWidth::Max);
        }
        proof {
            if s@ == seq!['m', 'i', 'n'] {
                assert(s@.len() == 3 && s@[0] == 'm' && s@[1] == 'i' && s@[2] == 'n');
            }
            if s@ == seq!['i', 't', 'e', 'm', 's'] {
                assert(s@.len() == 5 && s@[0] == 'i' && s@[1] == 't' && s@[2] == 'e' && s@[3]
                    == 'm' && s@[4] == 's');
            }
            if s@ == seq!['m', 'a', 'x'] {
                assert(s@.len() == 3 && s@[0] == 'm' && s@[1] == 'a' && s@[2] == 'x');
            }
        }
        return None;
    }
    proof {
        assert(s@[eq as int] == '=');
        assert(s@.contains('='));
        assert(first_eq_sign(s@, 0) == eq as int);
    }
    let ghost head = s@.subrange(0, eq as int);
    let ghost tail = s@.subrange(eq + 1, s@.len() as int);
    let head_ok = eq == 6 && s[0] == 'c' && s[1] == 'u' && s[2] == 's' && s[3] == 't' && s[4]
        == 'o' && s[5] == 'm';
    proof {
        if head_ok {
            assert(head =~= seq!['c', 'u', 's', 't', 'o', 'm']);
        } else {
            if head == seq!['c', 'u', 's', 't', 'o', 'm'] {
                assert(head.len() == 6);
                assert(s@[0] == 'c' && s@[1] == 'u' && s@[2] == 's' && s@[3] == 't' && s@[4]
                    == 'o' && s@[5] == 'm');
            }
        }
    }
    if !head_ok {
        return None;
    }
    let mut tail_vec: Vec<char> = Vec::new();
    let mut j: usize = eq + 1;
    let mut tail_has_eq = false;
    while j < s.len()
        invariant
            eq + 1 <= j <= s@.len(),
            eq < s@.len(),
            tail_vec@ == s@.subrange(eq + 1, j as int),
            tail_has_eq == exists|m: int| eq + 1 <= m < j && #[trigger] s@[m] == '=',
        decreases s@.len() - j,
    {
        if s[j] == '=' {
            tail_has_eq = true;
        }
        tail_vec.push(s[j]);
        proof {
            assert(tail_vec@ =~= s@.subrange(eq + 1, j + 1));
        }
        j = j + 1;
    }
    proof {
        assert(tail_vec@ =~= tail);
        assert(tail_has_eq == tail.contains('=')) by {
            if tail.contains('=') {
                let m = choose|m: int| 0 <= m < tail.len() && tail[m] == '=';
                assert(s@[eq + 1 + m] == '=');
            }
            if exists|m: int| eq + 1 <= m < s@.len() && #[trigger] s@[m] == '=' {
                let m = choose|m: int| eq + 1 <= m < s@.len() && #[trigger] s@[m] == '=';
                assert(tail[m - (eq + 1)] == '=');
            }
        }
    }
    if tail_has_eq {
        return None;
    }
    match parse_u64(&tail_vec) {
        Some(v) => if v <= 100 {
            Some(DefaultWidth::Custom(v as u8))
        } else {
            None
        },
        None => None,
    }
}

} // verus!
