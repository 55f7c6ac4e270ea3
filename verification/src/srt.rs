//! The subtitle block model: parsing SRT text into timed blocks and
//! formatting blocks back, with the two directions proved inverse on
//! everything the parser produces.

use crate::chars::{
    all_digits, blank_line, chars_string, digits_val, find_from, is_blank, is_space, is_newline,
    lemma_digits_val_spec_dec, lemma_spec_dec_digits,
    match_at, parse_u32_range, parse_u64_range, push_dec, push_pad2, push_pad3, push_range,
    spec_dec, spec_find_from, spec_lines, spec_pad2, spec_pad3, spec_parse_u32, spec_parse_u64,
    spec_split, spec_trim, split_lines, str_chars, strip_cr, trim_range, unlines,
};
use vstd::prelude::*;

verus! {

/// A single timed subtitle entry: a stable ordinal, a time range in
/// milliseconds, and the lines of its text.
#[derive(Debug)]
pub struct SrtBlock {
    pub index: u32,
    pub start_ms: u64,
    pub end_ms: u64,
    pub text: Vec<String>,
}

/// The mathematical shape of a block, used by every contract.
#[verifier::ext_equal]
pub ghost struct BlockModel {
    pub index: u32,
    pub start_ms: u64,
    pub end_ms: u64,
    pub text: Seq<Seq<char>>,
}

impl View for SrtBlock {
    type V = BlockModel;

    open spec fn view(&self) -> BlockModel {
        BlockModel {
            index: self.index,
            start_ms: self.start_ms,
            end_ms: self.end_ms,
            text: self.text.deep_view(),
        }
    }
}

/// Copy a block's lines; the copy carries the same characters.
pub fn clone_lines(v: &Vec<String>) -> (r: Vec<String>)
    ensures
        r.deep_view() == v.deep_view(),
{
    let mut out: Vec<String> = Vec::new();
    let n = v.len();
    let mut i: usize = 0;
    while i < n
        invariant
            i <= n,
            n == v@.len(),
            out.deep_view() == v.deep_view().take(i as int),
        decreases n - i,
    {
        let s = v[i].clone();
        proof {
            assert(s == v@[i as int]);
        }
        let ghost pv = out@;
        let ghost pdv = out.deep_view();
        proof {
            assert(pdv.len() == i as int);
            assert(pv.len() == i as int);
        }
        out.push(s);
        proof {
            assert(out@ == pv.push(s));
            assert forall|k: int| 0 <= k < i + 1 implies #[trigger] out.deep_view()[k]
                == v.deep_view().take(i + 1)[k] by {
                assert(out.deep_view()[k] == out@[k].deep_view());
                if k < i as int {
                    assert(out@[k] == pv[k]);
                    assert(pdv[k] == pv[k].deep_view());
                    assert(pdv[k] == v.deep_view().take(i as int)[k]);
                } else {
                    assert(out@[k] == s);
                }
            }
            assert(out.deep_view() =~= v.deep_view().take(i + 1));
        }
        i = i + 1;
    }
    proof {
        assert(v.deep_view().take(n as int) =~= v.deep_view());
    }
    out
}

impl Clone for SrtBlock {
    /// A clone carries the same model.
    fn clone(&self) -> (r: Self)
        ensures
            r@ == self@,
    {
        let r = SrtBlock {
            index: self.index,
            start_ms: self.start_ms,
            end_ms: self.end_ms,
            text: clone_lines(&self.text),
        };
        proof {
            assert(r@ =~~= self@);
        }
        r
    }
}

/// Equality of line vectors by their characters.
pub fn lines_eq(a: &Vec<String>, b: &Vec<String>) -> (r: bool)
    ensures
        r == (a.deep_view() == b.deep_view()),
{
    if a.len() != b.len() {
        proof {
            assert(a.deep_view().len() != b.deep_view().len());
        }
        return false;
    }
    let n = a.len();
    let mut i: usize = 0;
    while i < n
        invariant
            i <= n,
            n == a@.len() == b@.len(),
            forall|j: int| 0 <= j < i ==> a.deep_view()[j] == b.deep_view()[j],
        decreases n - i,
    {
        if !(a[i] == b[i]) {
            proof {
                assert(a.deep_view()[i as int] != b.deep_view()[i as int]);
            }
            return false;
        }
        i = i + 1;
    }
    proof {
        assert(a.deep_view() =~= b.deep_view());
    }
    true
}

impl PartialEq for SrtBlock {
    /// Two blocks are equal when their models are.
    fn eq(&self, other: &Self) -> (r: bool) {
        let r = self.index == other.index && self.start_ms == other.start_ms && self.end_ms
            == other.end_ms && lines_eq(&self.text, &other.text);
        proof {
            if r {
                assert(self@ =~~= other@);
            }
        }
        r
    }
}

impl vstd::std_specs::cmp::PartialEqSpecImpl for SrtBlock {
    open spec fn obeys_eq_spec() -> bool {
        true
    }

    open spec fn eq_spec(&self, other: &Self) -> bool {
        self@ == other@
    }
}

/// Why a subtitle text failed to parse.
#[derive(Debug, Clone, Copy, PartialEq, Eq, Structural)]
pub enum ParseError {
    /// A record's first line is not a number.
    BadIndex,
    /// A record ends before its time line.
    MissingTime,
    /// A time line is not two `HH:MM:SS,mmm` stamps joined by an arrow.
    BadTime,
    /// A record carries no text line between its time line and the blank
    /// line that ends it.
    MissingText,
}

/// The characters that separate the four fields of a time stamp.
pub open spec fn time_sep(c: char) -> bool {
    c == ':' || c == ','
}

/// `HH:MM:SS,mmm` as a number of milliseconds: exactly four fields split
/// by colons or commas, each a decimal number, combined positionally.
pub open spec fn spec_parse_time(t: Seq<char>) -> Option<u64> {
    let parts = spec_split(t, |c: char| time_sep(c));
    if parts.len() != 4 {
        None
    } else {
        match (spec_parse_u64(parts[0]), spec_parse_u64(parts[1]), spec_parse_u64(parts[2]),
        spec_parse_u64(parts[3])) {
            (Some(h), Some(m), Some(s), Some(ms)) => {
                let total = ((h * 60 + m) * 60 + s) * 1000 + ms;
                if total <= u64::MAX {
                    Some(total as u64)
                } else {
                    None
                }
            },
            _ => None,
        }
    }
}

/// The arrow that separates the two stamps of a time line.
pub open spec fn arrow() -> Seq<char> {
    seq![' ', '-', '-', '>', ' ']
}

/// A time line `start --> end`: the stamp before the first arrow and the
/// stamp between the first arrow and the second (or the end of the line),
/// anything after a second arrow ignored.
pub open spec fn spec_parse_times(l: Seq<char>) -> Option<(u64, u64)> {
    match spec_find_from(l, arrow(), 0) {
        None => None,
        Some(i) => {
            let start = l.take(i);
            let rest = l.skip(i + 5);
            let end = match spec_find_from(rest, arrow(), 0) {
                Some(k) => rest.take(k),
                None => rest,
            };
            match (spec_parse_time(start), spec_parse_time(end)) {
                (Some(s), Some(e)) => Some((s, e)),
                _ => None,
            }
        },
    }
}

/// A millisecond count as `HH:MM:SS,mmm`, hours growing past two digits
/// when they must.
pub open spec fn spec_format_time(ms: u64) -> Seq<char> {
    spec_pad2((ms as nat) / 3600000) + seq![':'] + spec_pad2(((ms as nat) % 3600000) / 60000)
        + seq![':'] + spec_pad2(((ms as nat) % 60000) / 1000) + seq![','] + spec_pad3(
        (ms as nat) % 1000,
    )
}

/// Append `HH:MM:SS,mmm` for `ms` to `out`.
pub fn push_time(out: &mut Vec<char>, ms: u64)
    ensures
        final(out)@ == old(out)@ + spec_format_time(ms),
{
    let h = ms / 3600000;
    let m = (ms % 3600000) / 60000;
    let s = (ms % 60000) / 1000;
    let r = ms % 1000;
    push_pad2(out, h);
    out.push(':');
    push_pad2(out, m);
    out.push(':');
    push_pad2(out, s);
    out.push(',');
    push_pad3(out, r);
    assert(out@ =~= old(out)@ + spec_format_time(ms));
}

/// Format milliseconds as an `HH:MM:SS,mmm` stamp.
pub fn format_time(ms: u64) -> (r: String)
    ensures
        r@ == spec_format_time(ms),
{
    let mut out: Vec<char> = Vec::new();
    push_time(&mut out, ms);
    chars_string(&out)
}

/// Split `s[lo..hi]` at every colon or comma.
#[verifier::loop_isolation(false)]
fn split_time_parts(s: &Vec<char>, lo: usize, hi: usize) -> (r: Vec<Vec<char>>)
    requires
        lo <= hi <= s@.len(),
    ensures
        r.deep_view() == spec_split(
            s@.subrange(lo as int, hi as int),
            |c: char| time_sep(c),
        ),
{
    let ghost p = |c: char| time_sep(c);
    let ghost sub = s@.subrange(lo as int, hi as int);
    let mut pieces: Vec<Vec<char>> = Vec::new();
    let mut cur: Vec<char> = Vec::new();
    let mut i = lo;
    proof {
        assert(sub.take(0) =~= Seq::<char>::empty());
        assert(crate::chars::spec_split(sub.take(0), p) =~~= pieces.deep_view().push(cur@));
    }
    while i < hi
        invariant
            lo <= i <= hi,
            spec_split(sub.take(i - lo), p) == pieces.deep_view().push(cur@),
        decreases hi - i,
    {
        let c = s[i];
        proof {
            assert(sub.take(i - lo + 1) =~= sub.take(i - lo).push(s@[i as int]));
            crate::chars::lemma_split_snoc(sub.take(i - lo), s@[i as int], p);
        }
        let ghost old_pieces = pieces.deep_view();
        let ghost old_cur = cur@;
        if c == ':' || c == ',' {
            pieces.push(cur);
            cur = Vec::new();
            proof {
                assert(pieces.deep_view() =~~= old_pieces.push(old_cur));
                assert(spec_split(sub.take(i - lo + 1), p) =~~= pieces.deep_view().push(cur@));
            }
        } else {
            cur.push(c);
            proof {
                assert(spec_split(sub.take(i - lo + 1), p) =~~= pieces.deep_view().push(cur@));
            }
        }
        i = i + 1;
    }
    let ghost old_pieces = pieces.deep_view();
    let ghost old_cur = cur@;
    pieces.push(cur);
    proof {
        assert(sub.take(hi - lo) =~= sub);
        assert(pieces.deep_view() =~~= old_pieces.push(old_cur));
    }
    pieces
}

/// Parse `s[lo..hi]` as one `HH:MM:SS,mmm` stamp.
#[verifier::loop_isolation(false)]
pub fn parse_time_range(s: &Vec<char>, lo: usize, hi: usize) -> (r: Option<u64>)
    requires
        lo <= hi <= s@.len(),
    ensures
        r == spec_parse_time(s@.subrange(lo as int, hi as int)),
{
    let ghost sub = s@.subrange(lo as int, hi as int);
    let parts = split_time_parts(s, lo, hi);
    if parts.len() != 4 {
        return None;
    }
    let p0 = &parts[0];
    let p1 = &parts[1];
    let p2 = &parts[2];
    let p3 = &parts[3];
    proof {
        assert(p0@.subrange(0, p0@.len() as int) =~= parts.deep_view()[0]);
        assert(p1@.subrange(0, p1@.len() as int) =~= parts.deep_view()[1]);
        assert(p2@.subrange(0, p2@.len() as int) =~= parts.deep_view()[2]);
        assert(p3@.subrange(0, p3@.len() as int) =~= parts.deep_view()[3]);
    }
    let h = match parse_u64_range(p0, 0, p0.len()) {
        Some(v) => v,
        None => {
            return None;
        },
    };
    let m = match parse_u64_range(p1, 0, p1.len()) {
        Some(v) => v,
        None => {
            return None;
        },
    };
    let sec = match parse_u64_range(p2, 0, p2.len()) {
        Some(v) => v,
        None => {
            return None;
        },
    };
    let ms = match parse_u64_range(p3, 0, p3.len()) {
        Some(v) => v,
        None => {
            return None;
        },
    };
    let total = match h.checked_mul(60) {
        Some(a) => match a.checked_add(m) {
            Some(b) => match b.checked_mul(60) {
                Some(c) => match c.checked_add(sec) {
                    Some(d) => match d.checked_mul(1000) {
                        Some(e) => e.checked_add(ms),
                        None => None,
                    },
                    None => None,
                },
                None => None,
            },
            None => None,
        },
        None => None,
    };
    proof {
        let hh = h as int;
        let mm = m as int;
        let ss = sec as int;
        let mss = ms as int;
        assert(((hh * 60 + mm) * 60 + ss) * 1000 + mss >= 0) by (nonlinear_arith)
            requires
                hh >= 0 && mm >= 0 && ss >= 0 && mss >= 0,
        ;
        if total is None {
            assert(((hh * 60 + mm) * 60 + ss) * 1000 + mss > u64::MAX) by (nonlinear_arith)
                requires
                    hh >= 0 && mm >= 0 && ss >= 0 && mss >= 0,
                    (hh * 60 > u64::MAX) || (hh * 60 + mm > u64::MAX) || ((hh * 60 + mm) * 60
                        > u64::MAX) || ((hh * 60 + mm) * 60 + ss > u64::MAX) || ((hh * 60 + mm)
                        * 60 + ss) * 1000 > u64::MAX || ((hh * 60 + mm) * 60 + ss) * 1000 + mss
                        > u64::MAX,
            ;
        }
    }
    total
}

proof fn lemma_digits_val_cons_zero(s: Seq<char>)
    ensures
        digits_val(seq!['0'] + s) == digits_val(s),
    decreases s.len(),
{
    if s.len() == 0 {
        assert((seq!['0'] + s) =~= seq!['0']);
        assert(digits_val(seq!['0']) == digits_val(seq!['0'].drop_last()) * 10
            + crate::chars::digit_val('0'));
    } else {
        assert((seq!['0'] + s).drop_last() =~= seq!['0'] + s.drop_last());
        assert((seq!['0'] + s).last() == s.last());
        lemma_digits_val_cons_zero(s.drop_last());
    }
}


/// The padded decimal renderings parse back to their value.
proof fn lemma_parse_pad2(x: nat)
    requires
        x <= u64::MAX,
    ensures
        all_digits(spec_pad2(x)),
        spec_pad2(x).len() >= 1,
        spec_parse_u64(spec_pad2(x)) == Some(x as u64),
{
    lemma_spec_dec_digits(x);
    lemma_digits_val_spec_dec(x);
    if x < 10 {
        assert(all_digits(spec_pad2(x))) by {
            assert(forall|i: int|
                0 <= i < spec_pad2(x).len() ==> #[trigger] spec_pad2(x)[i] == (seq!['0']
                    + spec_dec(x))[i]);
        }
        lemma_digits_val_cons_zero(spec_dec(x));
        assert(spec_pad2(x)[0] != '+');
    } else {
        assert(spec_pad2(x)[0] == spec_dec(x)[0]);
        assert(spec_pad2(x)[0] != '+');
    }
}

proof fn lemma_parse_pad3(x: nat)
    requires
        x <= u64::MAX,
    ensures
        all_digits(spec_pad3(x)),
        spec_pad3(x).len() >= 1,
        spec_parse_u64(spec_pad3(x)) == Some(x as u64),
{
    lemma_spec_dec_digits(x);
    lemma_digits_val_spec_dec(x);
    if x < 10 {
        assert(spec_pad3(x) =~= seq!['0'] + (seq!['0'] + spec_dec(x)));
        lemma_digits_val_cons_zero(spec_dec(x));
        lemma_digits_val_cons_zero(seq!['0'] + spec_dec(x));
        assert(spec_pad3(x)[0] == '0');
    } else if x < 100 {
        lemma_digits_val_cons_zero(spec_dec(x));
        assert(spec_pad3(x)[0] == '0');
    } else {
        assert(spec_pad3(x)[0] == spec_dec(x)[0]);
    }
}

/// Digits are neither the arrow's characters nor time separators.
proof fn lemma_digits_not_special(s: Seq<char>)
    requires
        all_digits(s),
    ensures
        forall|i: int| 0 <= i < s.len() ==> !time_sep(#[trigger] s[i]),
        forall|i: int| 0 <= i < s.len() ==> #[trigger] s[i] != ' ' && s[i] != '-' && s[i] != '>',
{
    assert forall|i: int| 0 <= i < s.len() implies !time_sep(#[trigger] s[i]) && s[i] != ' ' && s[i]
        != '-' && s[i] != '>' by {
        let c = s[i];
        assert(crate::chars::is_digit(c));
        if c == ':' || c == ',' || c == ' ' || c == '-' || c == '>' {
            assert(c as u32 == 58 || c as u32 == 44 || c as u32 == 32 || c as u32 == 45 || c as u32
                == 62);
        }
    }
}

/// Formatting a stamp and parsing it gives the stamp back.
pub proof fn lemma_time_round_trip(ms: u64)
    ensures
        spec_parse_time(spec_format_time(ms)) == Some(ms),
{
    let n = ms as int;
    let h = n / 3600000;
    let a = n % 3600000;
    let m1 = a / 60000;
    let x2 = n % 60000;
    let s1 = x2 / 1000;
    let r1 = n % 1000;
    vstd::arithmetic::div_mod::lemma_mod_bound(n, 3600000);
    vstd::arithmetic::div_mod::lemma_mod_bound(n, 60000);
    vstd::arithmetic::div_mod::lemma_mod_bound(n, 1000);
    vstd::arithmetic::div_mod::lemma_mod_bound(a, 60000);
    vstd::arithmetic::div_mod::lemma_mod_bound(x2, 1000);
    vstd::arithmetic::div_mod::lemma_fundamental_div_mod(n, 3600000);
    vstd::arithmetic::div_mod::lemma_fundamental_div_mod(a, 60000);
    vstd::arithmetic::div_mod::lemma_fundamental_div_mod(x2, 1000);
    vstd::arithmetic::div_mod::lemma_mod_mod(n, 60000, 60);
    vstd::arithmetic::div_mod::lemma_mod_mod(n, 1000, 60);
    assert(60000 * 60 == 3600000);
    assert(1000 * 60 == 60000);
    assert((n % 3600000) % 60000 == n % 60000);
    assert((n % 60000) % 1000 == n % 1000);
    assert(h >= 0) by {
        vstd::arithmetic::div_mod::lemma_div_pos_is_pos(n, 3600000);
    }
    assert(m1 >= 0) by {
        vstd::arithmetic::div_mod::lemma_div_pos_is_pos(a, 60000);
    }
    assert(s1 >= 0) by {
        vstd::arithmetic::div_mod::lemma_div_pos_is_pos(x2, 1000);
    }
    assert(m1 < 60 && s1 < 60);
    assert(h <= n) by {
        vstd::arithmetic::div_mod::lemma_div_nonincreasing(n, 3600000);
    }
    // The four fields, each a padded digit string.
    let ph = spec_pad2(h as nat);
    let pm = spec_pad2(m1 as nat);
    let ps = spec_pad2(s1 as nat);
    let pr = spec_pad3(r1 as nat);
    lemma_parse_pad2(h as nat);
    lemma_parse_pad2(m1 as nat);
    lemma_parse_pad2(s1 as nat);
    lemma_parse_pad3(r1 as nat);
    lemma_digits_not_special(ph);
    lemma_digits_not_special(pm);
    lemma_digits_not_special(ps);
    lemma_digits_not_special(pr);
    let t = spec_format_time(ms);
    let sep = |c: char| time_sep(c);
    // Peel the three separators off one by one.
    let rest1 = pm + seq![':'] + ps + seq![','] + pr;
    let rest2 = ps + seq![','] + pr;
    assert(t =~= ph + seq![':'] + rest1);
    crate::chars::lemma_split_splice(ph, ':', rest1, sep);
    assert(rest1 =~= pm + seq![':'] + rest2);
    crate::chars::lemma_split_splice(pm, ':', rest2, sep);
    crate::chars::lemma_split_splice(ps, ',', pr, sep);
    crate::chars::lemma_split_free(pr, sep);
    let parts = spec_split(t, sep);
    assert(parts =~~= seq![ph, pm, ps, pr]);
    assert(spec_parse_u64(parts[0]) == Some(h as u64));
    assert(spec_parse_u64(parts[1]) == Some(m1 as u64));
    assert(spec_parse_u64(parts[2]) == Some(s1 as u64));
    assert(spec_parse_u64(parts[3]) == Some(r1 as u64));
    assert(((h * 60 + m1) * 60 + s1) * 1000 + r1 == n);
}

impl DeepView for SrtBlock {
    type V = BlockModel;

    open spec fn deep_view(&self) -> BlockModel {
        self.view()
    }
}

/// Where a record's text ends: the first blank line at or after `j`.
pub open spec fn spec_text_end(ls: Seq<Seq<char>>, j: int) -> int
    decreases ls.len() - j,
{
    if 0 <= j < ls.len() && !is_blank(ls[j]) {
        spec_text_end(ls, j + 1)
    } else {
        j
    }
}

pub proof fn lemma_text_end(ls: Seq<Seq<char>>, j: int)
    requires
        0 <= j <= ls.len(),
    ensures
        j <= spec_text_end(ls, j) <= ls.len(),
        forall|k: int| j <= k < spec_text_end(ls, j) ==> !is_blank(#[trigger] ls[k]),
        spec_text_end(ls, j) < ls.len() ==> is_blank(ls[spec_text_end(ls, j)]),
    decreases ls.len() - j,
{
    if j < ls.len() && !is_blank(ls[j]) {
        lemma_text_end(ls, j + 1);
    }
}

proof fn lemma_text_end_value(ls: Seq<Seq<char>>, j: int, e: int)
    requires
        0 <= j <= e <= ls.len(),
        forall|k: int| j <= k < e ==> !is_blank(#[trigger] ls[k]),
        e == ls.len() || is_blank(ls[e]),
    ensures
        spec_text_end(ls, j) == e,
    decreases e - j,
{
    if j < e {
        lemma_text_end_value(ls, j + 1, e);
    }
}

/// One pass of the record grammar over the lines from position `i` on:
/// blank lines between records are skipped; a record is a trimmed decimal
/// index line, a time line, then one or more text lines up to a blank
/// line or the end.  A failing record names what was wrong with it.
pub open spec fn spec_parse_from(ls: Seq<Seq<char>>, i: int) -> Result<Seq<BlockModel>, ParseError>
    decreases ls.len() - i,
    via spec_parse_from_decreases
{
    if i < 0 || i >= ls.len() {
        Ok(Seq::<BlockModel>::empty())
    } else if is_blank(ls[i]) {
        spec_parse_from(ls, i + 1)
    } else {
        match spec_parse_u32(spec_trim(ls[i])) {
            None => Err(ParseError::BadIndex),
            Some(index) => if i + 1 >= ls.len() {
                Err(ParseError::MissingTime)
            } else {
                match spec_parse_times(ls[i + 1]) {
                    None => Err(ParseError::BadTime),
                    Some(times) => {
                        let j = spec_text_end(ls, i + 2);
                        if j == i + 2 {
                            Err(ParseError::MissingText)
                        } else {
                            let next = if j + 1 <= ls.len() {
                                j + 1
                            } else {
                                ls.len() as int
                            };
                            match spec_parse_from(ls, next) {
                                Err(e) => Err(e),
                                Ok(bs) => Ok(
                                    seq![
                                        BlockModel {
                                            index,
                                            start_ms: times.0,
                                            end_ms: times.1,
                                            text: ls.subrange(i + 2, j),
                                        },
                                    ] + bs,
                                ),
                            }
                        }
                    },
                }
            },
        }
    }
}

#[via_fn]
proof fn spec_parse_from_decreases(ls: Seq<Seq<char>>, i: int) {
    if 0 <= i && i + 1 < ls.len() && !is_blank(ls[i]) {
        lemma_text_end(ls, i + 2);
    }
}

/// What `parse` reads out of a subtitle text: its blocks, or the first
/// record's failure.
pub open spec fn spec_parse(s: Seq<char>) -> Result<Seq<BlockModel>, ParseError> {
    spec_parse_from(spec_lines(s), 0)
}

/// The arrow as an exec value.
fn arrow_vec() -> (r: Vec<char>)
    ensures
        r@ == arrow(),
{
    let mut v: Vec<char> = Vec::new();
    v.push(' ');
    v.push('-');
    v.push('-');
    v.push('>');
    v.push(' ');
    proof {
        assert(v@ =~= arrow());
    }
    v
}

/// Parse one time line.
pub fn parse_times_line(l: &Vec<char>) -> (r: Option<(u64, u64)>)
    ensures
        r == spec_parse_times(l@),
{
    let ar = arrow_vec();
    let n = l.len();
    match find_from(l, 0, &ar) {
        None => None,
        Some(i) => {
            let start = parse_time_range(l, 0, i);
            proof {
                assert(l@.subrange(0, i as int) =~= l@.take(i as int));
                crate::chars::lemma_find_from_shift(l@, arrow(), i + 5);
            }
            let ghost rest = l@.skip(i + 5);
            let (elo, ehi) = match find_from(l, i + 5, &ar) {
                Some(k) => (i + 5, k),
                None => (i + 5, n),
            };
            proof {
                assert(l@.subrange(elo as int, ehi as int) =~= (match spec_find_from(
                    rest,
                    arrow(),
                    0,
                ) {
                    Some(k) => rest.take(k),
                    None => rest,
                }));
            }
            let end = parse_time_range(l, elo, ehi);
            match (start, end) {
                (Some(s), Some(e)) => Some((s, e)),
                _ => None,
            }
        },
    }
}

/// Parse a subtitle text into its blocks.  The result is `Ok` exactly when
/// the grammar of `spec_parse` accepts the text, carries exactly the
/// blocks the grammar yields, and otherwise reports exactly the failure
/// the grammar names.
#[verifier::loop_isolation(false)]
pub fn parse(input: &str) -> (r: Result<Vec<SrtBlock>, ParseError>)
    ensures
        (r matches Ok(blocks) ==> spec_parse(input@) == Ok::<Seq<BlockModel>, ParseError>(
            blocks.deep_view(),
        )),
        (r matches Err(e) ==> spec_parse(input@) == Err::<Seq<BlockModel>, ParseError>(e)),
{
    let chars = str_chars(input);
    let lines = split_lines(&chars);
    let ghost ls = lines.deep_view();
    let n = lines.len();
    let mut blocks: Vec<SrtBlock> = Vec::new();
    let mut i: usize = 0;
    proof {
        assert(blocks.deep_view() =~= Seq::<BlockModel>::empty());
    }
    while i < n
        invariant
            i <= n,
            (match spec_parse_from(ls, i as int) {
                Ok(bs) => spec_parse_from(ls, 0) == Ok::<Seq<BlockModel>, ParseError>(
                    blocks.deep_view() + bs,
                ),
                Err(e) => spec_parse_from(ls, 0) == Err::<Seq<BlockModel>, ParseError>(e),
            }),
        decreases n - i,
    {
        let line = &lines[i];
        proof {
            assert(line@ == ls[i as int]);
        }
        if blank_line(line) {
            i = i + 1;
        } else {
            let (a, b) = trim_range(line, 0, line.len());
            proof {
                assert(line@.subrange(0, line@.len() as int) =~= line@);
            }
            let index = match parse_u32_range(line, a, b) {
                Some(v) => v,
                None => {
                    return Err(ParseError::BadIndex);
                },
            };
            if i + 1 >= n {
                return Err(ParseError::MissingTime);
            }
            let tline = &lines[i + 1];
            proof {
                assert(tline@ == ls[i + 1]);
            }
            let times = match parse_times_line(tline) {
                Some(p) => p,
                None => {
                    return Err(ParseError::BadTime);
                },
            };
            let mut j = i + 2;
            let mut text: Vec<String> = Vec::new();
            proof {
                assert(text.deep_view() =~= ls.subrange(i + 2, j as int));
            }
            while j < n && !blank_line(&lines[j])
                invariant
                    i + 2 <= j <= n,
                    text.deep_view() == ls.subrange(i + 2, j as int),
                    forall|k: int| i + 2 <= k < j ==> !is_blank(#[trigger] ls[k]),
                decreases n - j,
            {
                let ghost old_text = text.deep_view();
                let s = chars_string(&lines[j]);
                proof {
                    assert(s@ == ls[j as int]);
                    assert(old_text.len() == j - (i + 2));
                    assert(text@.len() == j - (i + 2));
                }
                text.push(s);
                proof {
                    assert(text.deep_view() =~~= old_text.push(ls[j as int]));
                    assert(text.deep_view() =~= ls.subrange(i + 2, j + 1));
                }
                j = j + 1;
            }
            proof {
                lemma_text_end_value(ls, i + 2, j as int);
            }
            if j == i + 2 {
                return Err(ParseError::MissingText);
            }
            let block = SrtBlock { index, start_ms: times.0, end_ms: times.1, text };
            proof {
                assert(block@ =~~= BlockModel {
                    index,
                    start_ms: times.0,
                    end_ms: times.1,
                    text: ls.subrange(i + 2, j as int),
                });
            }
            let ghost old_blocks = blocks.deep_view();
            proof {
                assert(old_blocks.len() == blocks@.len());
            }
            blocks.push(block);
            proof {
                assert(blocks.deep_view() =~~= old_blocks.push(block@));
                let next = if j + 1 <= n {
                    j + 1 as int
                } else {
                    n as int
                };
                match spec_parse_from(ls, next) {
                    Ok(bs) => {
                        assert(spec_parse_from(ls, i as int) == Ok::<Seq<BlockModel>, ParseError>(
                            seq![block@] + bs,
                        ));
                        assert(old_blocks + (seq![block@] + bs) =~= blocks.deep_view() + bs);
                    },
                    Err(_) => {},
                }
            }
            if j == n {
                i = n;
            } else {
                i = j + 1;
            }
        }
    }
    proof {
        assert(spec_parse_from(ls, n as int) == Ok::<Seq<BlockModel>, ParseError>(
            Seq::<BlockModel>::empty(),
        ));
        assert(blocks.deep_view() + Seq::<BlockModel>::empty() =~= blocks.deep_view());
    }
    Ok(blocks)
}

/// The lines a block renders to: its index, its time line, its text, and
/// the blank line that closes the record.
#[verifier::opaque]
pub open spec fn spec_block_lines(b: BlockModel) -> Seq<Seq<char>> {
    let head = seq![
        spec_dec(b.index as nat),
        spec_format_time(b.start_ms) + arrow() + spec_format_time(b.end_ms),
    ];
    head + b.text + seq![Seq::<char>::empty()]
}

pub open spec fn spec_format_lines(bs: Seq<BlockModel>) -> Seq<Seq<char>>
    decreases bs.len(),
{
    if bs.len() == 0 {
        Seq::<Seq<char>>::empty()
    } else {
        spec_block_lines(bs[0]) + spec_format_lines(bs.drop_first())
    }
}

/// What `format` writes: every block's lines, each line closed by a line
/// feed.
pub open spec fn spec_format(bs: Seq<BlockModel>) -> Seq<char> {
    unlines(spec_format_lines(bs))
}

proof fn lemma_format_lines_snoc(bs: Seq<BlockModel>, b: BlockModel)
    ensures
        spec_format_lines(bs.push(b)) == spec_format_lines(bs) + spec_block_lines(b),
    decreases bs.len(),
{
    if bs.len() == 0 {
        assert(bs.push(b)[0] == b);
        assert(bs.push(b).drop_first() =~= Seq::<BlockModel>::empty());
        assert(spec_format_lines(Seq::<BlockModel>::empty()) == Seq::<Seq<char>>::empty());
        assert(spec_format_lines(bs.push(b)) =~= spec_format_lines(bs) + spec_block_lines(b));
    } else {
        assert(bs.push(b)[0] == bs[0]);
        assert(bs.push(b).drop_first() =~= bs.drop_first().push(b));
        lemma_format_lines_snoc(bs.drop_first(), b);
        assert(spec_format_lines(bs.push(b)) =~= spec_format_lines(bs) + spec_block_lines(b));
    }
}

proof fn lemma_unlines_two(a: Seq<char>, b: Seq<char>)
    ensures
        unlines(seq![a, b]) == a + seq!['\n'] + b + seq!['\n'],
{
    let e = Seq::<Seq<char>>::empty();
    assert(unlines(e) == Seq::<char>::empty());
    crate::chars::lemma_unlines_snoc(e, a);
    crate::chars::lemma_unlines_snoc(e.push(a), b);
    assert(seq![a, b] =~= e.push(a).push(b));
    assert(unlines(e.push(a)) =~= a + seq!['\n']);
    assert(unlines(seq![a, b]) =~= a + seq!['\n'] + b + seq!['\n']);
}

/// Append one block's rendering to `out`.
fn push_block(out: &mut Vec<char>, b: &SrtBlock)
    ensures
        final(out)@ == old(out)@ + unlines(spec_block_lines(b@)),
{
    push_dec(out, b.index as u64);
    out.push('\n');
    push_time(out, b.start_ms);
    out.push(' ');
    out.push('-');
    out.push('-');
    out.push('>');
    out.push(' ');
    push_time(out, b.end_ms);
    out.push('\n');
    let ghost head0 = spec_dec(b@.index as nat);
    let ghost head1 = spec_format_time(b@.start_ms) + arrow() + spec_format_time(b@.end_ms);
    let ghost base = old(out)@ + head0 + seq!['\n'] + head1 + seq!['\n'];
    proof {
        assert(out@ =~= base);
    }
    let n = b.text.len();
    let mut k: usize = 0;
    proof {
        assert(unlines(b@.text.take(0)) == Seq::<char>::empty());
        assert(base + unlines(b@.text.take(0)) =~= base);
    }
    while k < n
        invariant
            k <= n,
            n == b.text@.len(),
            out@ == base + unlines(b@.text.take(k as int)),
        decreases n - k,
    {
        let cs = str_chars(b.text[k].as_str());
        let ghost before = out@;
        push_range(out, &cs, 0, cs.len());
        out.push('\n');
        proof {
            assert(cs@.subrange(0, cs@.len() as int) =~= b@.text[k as int]);
            assert(b@.text.take(k + 1) =~= b@.text.take(k as int).push(b@.text[k as int]));
            crate::chars::lemma_unlines_snoc(b@.text.take(k as int), b@.text[k as int]);
            assert(out@ =~= base + unlines(b@.text.take(k + 1)));
        }
        k = k + 1;
    }
    out.push('\n');
    proof {
        reveal(spec_block_lines);
        assert(b@.text.take(n as int) =~= b@.text);
        lemma_unlines_two(head0, head1);
        crate::chars::lemma_unlines_snoc(b@.text, Seq::<char>::empty());
        crate::chars::lemma_unlines_concat(
            seq![head0, head1],
            b@.text.push(Seq::<char>::empty()),
        );
        assert(seq![head0, head1] + b@.text.push(Seq::<char>::empty()) =~= spec_block_lines(b@));
        assert(out@ =~= old(out)@ + unlines(spec_block_lines(b@)));
    }
}

/// Render blocks back to subtitle text; the inverse of `parse` on
/// everything `parse` produces.
#[verifier::loop_isolation(false)]
pub fn format(blocks: &Vec<SrtBlock>) -> (r: String)
    ensures
        r@ == spec_format(blocks.deep_view()),
{
    let mut out: Vec<char> = Vec::new();
    let n = blocks.len();
    let mut i: usize = 0;
    let ghost bs = blocks.deep_view();
    proof {
        assert(spec_format_lines(bs.take(0)) =~= Seq::<Seq<char>>::empty());
        assert(out@ =~= unlines(spec_format_lines(bs.take(0))));
    }
    while i < n
        invariant
            i <= n,
            out@ == unlines(spec_format_lines(bs.take(i as int))),
        decreases n - i,
    {
        proof {
            assert(blocks@[i as int]@ == bs[i as int]);
        }
        push_block(&mut out, &blocks[i]);
        proof {
            assert(bs.take(i + 1) =~= bs.take(i as int).push(bs[i as int]));
            lemma_format_lines_snoc(bs.take(i as int), bs[i as int]);
            crate::chars::lemma_unlines_concat(
                spec_format_lines(bs.take(i as int)),
                spec_block_lines(bs[i as int]),
            );
        }
        i = i + 1;
    }
    proof {
        assert(bs.take(n as int) =~= bs);
    }
    chars_string(&out)
}

/// A text line as the parser can produce it: not entirely whitespace, and
/// holding no line feed.
pub open spec fn line_ok(l: Seq<char>) -> bool {
    !is_blank(l) && forall|k: int| 0 <= k < l.len() ==> (#[trigger] l[k]) != '\n'
}

/// A block's text as the parser produces it: at least one line, each a
/// line the parser could have read.
pub open spec fn block_text_ok(b: BlockModel) -> bool {
    b.text.len() > 0 && forall|j: int| 0 <= j < b.text.len() ==> line_ok(#[trigger] b.text[j])
}

/// Every text line of every block is a line the parser could have read.
pub open spec fn wf_text(bs: Seq<BlockModel>) -> bool {
    forall|i: int| 0 <= i < bs.len() ==> block_text_ok(#[trigger] bs[i])
}

pub open spec fn block_no_cr(b: BlockModel) -> bool {
    forall|j: int|
        0 <= j < b.text.len() ==> ((#[trigger] b.text[j]).len() == 0 || b.text[j].last() != '\r')
}

/// No text line ends in a carriage return.  The line splitter strips one,
/// so formatting such a line and splitting again would shorten it.
pub open spec fn wf_crlf(bs: Seq<BlockModel>) -> bool {
    forall|i: int| 0 <= i < bs.len() ==> block_no_cr(#[trigger] bs[i])
}

/// A character a time stamp may hold.
pub open spec fn time_char(c: char) -> bool {
    is_digit_c(c) || c == ':' || c == ','
}

pub open spec fn is_digit_c(c: char) -> bool {
    crate::chars::is_digit(c)
}

proof fn lemma_time_chars(ms: u64)
    ensures
        spec_format_time(ms).len() >= 1,
        forall|k: int|
            0 <= k < spec_format_time(ms).len() ==> time_char(#[trigger] spec_format_time(ms)[k]),
        is_digit_c(spec_format_time(ms).last()),
{
    let n = ms as nat;
    lemma_parse_pad2(n / 3600000);
    lemma_parse_pad2((n % 3600000) / 60000);
    lemma_parse_pad2((n % 60000) / 1000);
    lemma_parse_pad3(n % 1000);
    vstd::arithmetic::div_mod::lemma_mod_bound(n as int, 3600000);
    vstd::arithmetic::div_mod::lemma_mod_bound(n as int, 60000);
    vstd::arithmetic::div_mod::lemma_mod_bound(n as int, 1000);
    vstd::arithmetic::div_mod::lemma_div_pos_is_pos(n as int, 3600000);
    vstd::arithmetic::div_mod::lemma_div_pos_is_pos((n % 3600000) as int, 60000);
    vstd::arithmetic::div_mod::lemma_div_pos_is_pos((n % 60000) as int, 1000);
    vstd::arithmetic::div_mod::lemma_div_nonincreasing(n as int, 3600000);
    let t = spec_format_time(ms);
    let pr = spec_pad3(n % 1000);
    assert(t.last() == pr.last());
}

/// A time character is not part of an arrow.
proof fn lemma_time_char_not_arrow(c: char)
    requires
        time_char(c),
    ensures
        c != ' ' && c != '-' && c != '>',
{
    if c == ' ' || c == '-' || c == '>' {
        assert(c as u32 == 32 || c as u32 == 45 || c as u32 == 62);
        assert(!(48 <= c as u32 && c as u32 <= 57));
        assert(c != ':' && c != ',');
    }
}

/// The time line a block writes parses back to its two stamps.
proof fn lemma_timeline_parse(s_ms: u64, e_ms: u64)
    ensures
        spec_parse_times(spec_format_time(s_ms) + arrow() + spec_format_time(e_ms)) == Some(
            (s_ms, e_ms),
        ),
{
    let f1 = spec_format_time(s_ms);
    let f2 = spec_format_time(e_ms);
    let t = f1 + arrow() + f2;
    let l1 = f1.len() as int;
    lemma_time_chars(s_ms);
    lemma_time_chars(e_ms);
    assert(t.subrange(l1, l1 + 5) =~= arrow());
    assert(match_at(t, arrow(), l1));
    assert forall|k: int| 0 <= k < l1 implies !(#[trigger] match_at(t, arrow(), k)) by {
        if match_at(t, arrow(), k) {
            assert(t.subrange(k, k + 5)[1] == t[k + 1]);
            assert(t[k + 1] == arrow()[1]);
            if k + 1 < l1 {
                assert(t[k + 1] == f1[k + 1]);
                lemma_time_char_not_arrow(f1[k + 1]);
            } else {
                assert(t.subrange(k, k + 5)[0] == t[k]);
                assert(t[k] == arrow()[0]);
                assert(t[k] == f1[l1 - 1]);
                lemma_time_char_not_arrow(f1[l1 - 1]);
            }
        }
    }
    crate::chars::lemma_find_from_val(t, arrow(), 0, l1);
    assert(t.take(l1) =~= f1);
    assert(t.skip(l1 + 5) =~= f2);
    assert forall|k: int| 0 <= k implies !(#[trigger] match_at(f2, arrow(), k)) by {
        if match_at(f2, arrow(), k) {
            assert(f2.subrange(k, k + 5)[1] == f2[k + 1]);
            assert(f2[k + 1] == arrow()[1]);
            lemma_time_char_not_arrow(f2[k + 1]);
        }
    }
    crate::chars::lemma_find_from_fails(f2, arrow(), 0);
    lemma_time_round_trip(s_ms);
    lemma_time_round_trip(e_ms);
}

/// The index line a block writes parses back to its index.
proof fn lemma_index_line_parse(index: u32)
    ensures
        !is_blank(spec_dec(index as nat)),
        spec_trim(spec_dec(index as nat)) == spec_dec(index as nat),
        spec_parse_u32(spec_dec(index as nat)) == Some(index),
{
    let d = spec_dec(index as nat);
    lemma_spec_dec_digits(index as nat);
    lemma_digits_val_spec_dec(index as nat);
    assert(is_digit_c(d[0]));
    assert(!is_space(d[0]));
    assert(!is_blank(d));
    assert(!is_space(d.last()));
    assert(crate::chars::trim_front(d) == d);
    assert(crate::chars::trim_back(d) == d);
    assert(d[0] != '+') by {
        if d[0] == '+' {
            assert(d[0] as u32 == 43);
        }
    }
}

/// The shape of one record's lines.
proof fn lemma_record_structure(b: BlockModel)
    ensures
        spec_block_lines(b).len() == b.text.len() + 3int,
        spec_block_lines(b)[0] == spec_dec(b.index as nat),
        spec_block_lines(b)[1] == spec_format_time(b.start_ms) + arrow() + spec_format_time(
            b.end_ms,
        ),
        forall|k: int|
            0 <= k < b.text.len() ==> #[trigger] spec_block_lines(b)[2 + k] == b.text[k],
        spec_block_lines(b).last() == Seq::<char>::empty(),
{
    reveal(spec_block_lines);
}

/// Parsing what one record renders, then going on: the heart of the round
/// trip, an induction over the blocks.
#[verifier::rlimit(100)]
proof fn lemma_parse_format_from(ls: Seq<Seq<char>>, i: int, bs: Seq<BlockModel>)
    requires
        0 <= i <= ls.len(),
        ls.skip(i) == spec_format_lines(bs),
        wf_text(bs),
    ensures
        spec_parse_from(ls, i) == Ok::<Seq<BlockModel>, ParseError>(bs),
    decreases bs.len(),
{
    if bs.len() == 0 {
        assert(ls.skip(i).len() == 0);
        assert(spec_parse_from(ls, i) == Ok::<Seq<BlockModel>, ParseError>(
            Seq::<BlockModel>::empty(),
        ));
        assert(Seq::<BlockModel>::empty() =~= bs);
    } else {
        let b = bs[0];
        let rest = bs.drop_first();
        let bl = spec_block_lines(b);
        let tlen = b.text.len() as int;
        let ll = bl.len() as int;
        lemma_record_structure(b);
        assert(spec_format_lines(bs) == bl + spec_format_lines(rest));
        assert(wf_text(rest)) by {
            assert(forall|k: int| 0 <= k < rest.len() ==> rest[k] == bs[k + 1]);
        }
        assert(ls.skip(i).len() == bl.len() + spec_format_lines(rest).len());
        assert(i + ll <= ls.len());
        assert forall|k: int| 0 <= k < ll implies #[trigger] ls[i + k] == bl[k] by {
            assert(ls[i + k] == ls.skip(i)[k]);
            assert(ls.skip(i)[k] == (bl + spec_format_lines(rest))[k]);
            assert((bl + spec_format_lines(rest))[k] == bl[k]);
        }
        // Line i: the index.
        assert(ls[i + 0] == bl[0]);
        assert(ls[i] == spec_dec(b.index as nat));
        lemma_index_line_parse(b.index);
        // Line i + 1: the times.
        assert(ls[i + 1] == bl[1]);
        lemma_timeline_parse(b.start_ms, b.end_ms);
        // Lines i + 2 on: the text, then the blank line that ends the record.
        assert(block_text_ok(b));
        assert(tlen >= 1);
        {
            assert(ll == tlen + 3);
            assert forall|k: int| i + 2 <= k < i + 2 + tlen implies !is_blank(#[trigger] ls[k])
                && ls[k] == b.text[k - i - 2] by {
                assert(ls[i + (k - i)] == bl[k - i]);
                assert(bl[2 + (k - i - 2)] == b.text[k - i - 2]);
                assert(line_ok(b.text[k - i - 2]));
            }
            assert(ls[i + (ll - 1)] == bl[ll - 1]);
            assert(bl[ll - 1] == bl.last());
            assert(ls[i + 2 + tlen] == Seq::<char>::empty());
            assert(is_blank(ls[i + 2 + tlen]));
            lemma_text_end_value(ls, i + 2, i + 2 + tlen);
            assert(ls.subrange(i + 2, i + 2 + tlen) =~= b.text);
            assert forall|k: int| 0 <= k < spec_format_lines(rest).len() implies #[trigger] ls.skip(
                i + ll,
            )[k] == spec_format_lines(rest)[k] by {
                assert(ls.skip(i + ll)[k] == ls[i + (ll + k)]);
                assert(ls[i + (ll + k)] == ls.skip(i)[ll + k]);
                assert(ls.skip(i)[ll + k] == (bl + spec_format_lines(rest))[ll + k]);
            }
            assert(ls.skip(i + ll) =~= spec_format_lines(rest));
            lemma_parse_format_from(ls, i + ll, rest);
            assert(spec_parse_from(ls, i) == Ok::<Seq<BlockModel>, ParseError>(
                seq![
                    BlockModel {
                        index: b.index,
                        start_ms: b.start_ms,
                        end_ms: b.end_ms,
                        text: ls.subrange(i + 2, i + 2 + tlen),
                    },
                ] + rest,
            ));
            assert(BlockModel {
                index: b.index,
                start_ms: b.start_ms,
                end_ms: b.end_ms,
                text: ls.subrange(i + 2, i + 2 + tlen),
            } =~~= b);
            assert(seq![b] + rest =~= bs);
        }
    }
}

/// A line the splitter could have produced, and reproduces unchanged: no
/// line feed inside, no carriage return at the end.
pub open spec fn line_clean(l: Seq<char>) -> bool {
    (forall|k: int| 0 <= k < l.len() ==> (#[trigger] l[k]) != '\n') && (l.len() == 0 || l.last()
        != '\r')
}

proof fn lemma_time_line_clean(s_ms: u64, e_ms: u64)
    ensures
        line_clean(spec_format_time(s_ms) + arrow() + spec_format_time(e_ms)),
{
    let f1 = spec_format_time(s_ms);
    let f2 = spec_format_time(e_ms);
    let l = f1 + arrow() + f2;
    lemma_time_chars(s_ms);
    lemma_time_chars(e_ms);
    assert forall|k: int| 0 <= k < l.len() implies (#[trigger] l[k]) != '\n' by {
        let c = l[k];
        if k < f1.len() {
            assert(c == f1[k] && time_char(c));
        } else if k < f1.len() + 5 {
            assert(c == arrow()[k - f1.len()]);
        } else {
            assert(c == f2[k - f1.len() - 5] && time_char(c));
        }
        if c == '\n' {
            assert(c as u32 == 10);
        }
    }
    assert(l.last() == f2.last());
    assert(is_digit_c(l.last()));
    if l.last() == '\r' {
        assert(l.last() as u32 == 13);
    }
}

proof fn lemma_dec_clean(n: nat)
    ensures
        line_clean(spec_dec(n)),
{
    lemma_spec_dec_digits(n);
    assert forall|k: int| 0 <= k < spec_dec(n).len() implies (#[trigger] spec_dec(n)[k])
        != '\n' by {
        if spec_dec(n)[k] == '\n' {
            assert(spec_dec(n)[k] as u32 == 10);
        }
    }
    if spec_dec(n).last() == '\r' {
        assert(spec_dec(n).last() as u32 == 13);
    }
}

/// Every line a well-formed block renders to is clean.
proof fn lemma_block_lines_clean(b: BlockModel)
    requires
        block_text_ok(b),
        block_no_cr(b),
    ensures
        forall|k: int|
            0 <= k < spec_block_lines(b).len() ==> line_clean(#[trigger] spec_block_lines(b)[k]),
{
    lemma_record_structure(b);
    lemma_dec_clean(b.index as nat);
    lemma_time_line_clean(b.start_ms, b.end_ms);
    let bl = spec_block_lines(b);
    assert forall|k: int| 0 <= k < bl.len() implies line_clean(#[trigger] bl[k]) by {
        if k == 0 {
            assert(bl[0] == spec_dec(b.index as nat));
        } else if k == 1 {
        } else if k < 2 + b.text.len() {
            assert(bl[2 + (k - 2)] == b.text[k - 2]);
            assert(line_ok(b.text[k - 2]));
            assert(b.text[k - 2].len() == 0 || b.text[k - 2].last() != '\r');
            assert(line_clean(b.text[k - 2])) by {
                assert(forall|j: int|
                    0 <= j < b.text[k - 2].len() ==> (#[trigger] b.text[k - 2][j]) != '\n');
            }
        } else {
            assert(bl[k] == bl.last());
            assert(bl[k].len() == 0);
        }
    }
}

proof fn lemma_format_lines_clean(bs: Seq<BlockModel>)
    requires
        wf_text(bs),
        wf_crlf(bs),
    ensures
        forall|k: int|
            0 <= k < spec_format_lines(bs).len() ==> line_clean(
                #[trigger] spec_format_lines(bs)[k],
            ),
    decreases bs.len(),
{
    if bs.len() > 0 {
        let b = bs[0];
        let rest = bs.drop_first();
        assert(wf_text(rest) && wf_crlf(rest)) by {
            assert(forall|k: int| 0 <= k < rest.len() ==> rest[k] == bs[k + 1]);
        }
        lemma_block_lines_clean(b);
        lemma_format_lines_clean(rest);
        let bl = spec_block_lines(b);
        assert(spec_format_lines(bs) == bl + spec_format_lines(rest));
        assert forall|k: int| 0 <= k < spec_format_lines(bs).len() implies line_clean(
            #[trigger] spec_format_lines(bs)[k],
        ) by {
            if k < bl.len() {
                assert(spec_format_lines(bs)[k] == bl[k]);
            } else {
                assert(spec_format_lines(bs)[k] == spec_format_lines(rest)[k - bl.len()]);
            }
        }
    }
}

/// Splitting the formatted text into lines gives back exactly the lines
/// each block rendered to.
proof fn lemma_lines_of_format(bs: Seq<BlockModel>)
    requires
        wf_text(bs),
        wf_crlf(bs),
    ensures
        spec_lines(spec_format(bs)) == spec_format_lines(bs),
{
    let ls = spec_format_lines(bs);
    lemma_format_lines_clean(bs);
    assert(forall|a: int, k: int|
        0 <= a < ls.len() && 0 <= k < ls[a].len() ==> !is_newline(#[trigger] ls[a][k])) by {
        assert(forall|a: int| 0 <= a < ls.len() ==> line_clean(#[trigger] ls[a]));
    }
    crate::chars::lemma_split_unlines(ls);
    let p = spec_split(spec_format(bs), |c: char| is_newline(c));
    assert(p == ls + seq![Seq::<char>::empty()]);
    assert(p.last().len() == 0);
    let q = p.drop_last();
    assert(q =~= ls);
    let m = q.map_values(|l: Seq<char>| strip_cr(l));
    assert forall|k: int| 0 <= k < ls.len() implies #[trigger] m[k] == ls[k] by {
        assert(line_clean(ls[k]));
        assert(strip_cr(ls[k]) == ls[k]);
    }
    assert(m =~= ls);
}

/// Whatever the parser accepted is well formed: no text line is blank or
/// holds a line feed.
pub proof fn lemma_parse_from_wf(ls: Seq<Seq<char>>, i: int, bs: Seq<BlockModel>)
    requires
        0 <= i,
        spec_parse_from(ls, i) == Ok::<Seq<BlockModel>, ParseError>(bs),
        forall|a: int, k: int|
            0 <= a < ls.len() && 0 <= k < ls[a].len() ==> (#[trigger] ls[a][k]) != '\n',
    ensures
        wf_text(bs),
    decreases ls.len() - i + 1,
{
    if i >= ls.len() {
    } else if is_blank(ls[i]) {
        lemma_parse_from_wf(ls, i + 1, bs);
    } else {
        match spec_parse_u32(spec_trim(ls[i])) {
            None => {},
            Some(index) => {
                if i + 1 < ls.len() {
                    match spec_parse_times(ls[i + 1]) {
                        None => {},
                        Some(times) => {
                            lemma_text_end(ls, i + 2);
                            let j = spec_text_end(ls, i + 2);
                            if j != i + 2 {
                                let next = if j + 1 <= ls.len() {
                                    j + 1
                                } else {
                                    ls.len() as int
                                };
                                match spec_parse_from(ls, next) {
                                Err(_) => {},
                                Ok(rest) => {
                                    lemma_parse_from_wf(ls, next, rest);
                                    let b = BlockModel {
                                        index,
                                        start_ms: times.0,
                                        end_ms: times.1,
                                        text: ls.subrange(i + 2, j),
                                    };
                                    assert(block_text_ok(b)) by {
                                        assert(b.text.len() == j - i - 2 >= 1);
                                        assert forall|tj: int| 0 <= tj < b.text.len() implies
                                            line_ok(#[trigger] b.text[tj]) by {
                                            assert(b.text[tj] == ls[i + 2 + tj]);
                                            assert(!is_blank(ls[i + 2 + tj]));
                                        }
                                    }
                                    assert(bs == seq![b] + rest);
                                    assert forall|a: int| 0 <= a < bs.len() implies block_text_ok(
                                        #[trigger] bs[a],
                                    ) by {
                                        if a == 0 {
                                            assert(bs[0] == b);
                                        } else {
                                            assert(bs[a] == rest[a - 1]);
                                        }
                                    }
                                },
                                }
                            }
                        },
                    }
                }
            },
        }
    }
}

/// The lines of any split text hold no line feed.
pub proof fn lemma_lines_nl_free(s: Seq<char>)
    ensures
        forall|a: int, k: int|
            0 <= a < spec_lines(s).len() && 0 <= k < spec_lines(s)[a].len() ==> (
            #[trigger] spec_lines(s)[a][k]) != '\n',
{
    let p = spec_split(s, |c: char| is_newline(c));
    crate::chars::lemma_split_pieces_free(s, |c: char| is_newline(c));
    let q = if p.last().len() == 0 {
        p.drop_last()
    } else {
        p
    };
    assert forall|a: int, k: int|
        0 <= a < spec_lines(s).len() && 0 <= k < spec_lines(s)[a].len() implies (
    #[trigger] spec_lines(s)[a][k]) != '\n' by {
        assert(spec_lines(s)[a] == strip_cr(q[a]));
        assert(q[a] == p[a]);
        if strip_cr(q[a]) == q[a] {
            assert(spec_lines(s)[a][k] == p[a][k]);
            assert(!is_newline(p[a][k]));
        } else {
            assert(strip_cr(q[a]) == q[a].drop_last());
            assert(spec_lines(s)[a][k] == p[a][k]);
            assert(!is_newline(p[a][k]));
        }
    }
}

/// Round trip: any block sequence the parser produced, formatted and
/// parsed again, comes back unchanged — as long as no text line ends in a
/// carriage return, since the line splitter strips one and such a line
/// cannot survive a rewrite.
pub proof fn lemma_round_trip(s: Seq<char>, bs: Seq<BlockModel>)
    requires
        spec_parse(s) == Ok::<Seq<BlockModel>, ParseError>(bs),
        wf_crlf(bs),
    ensures
        spec_parse(spec_format(bs)) == Ok::<Seq<BlockModel>, ParseError>(bs),
{
    lemma_lines_nl_free(s);
    lemma_parse_from_wf(spec_lines(s), 0, bs);
    lemma_lines_of_format(bs);
    let ls = spec_format_lines(bs);
    assert(ls.skip(0) =~= ls);
    lemma_parse_format_from(ls, 0, bs);
}

} // verus!
