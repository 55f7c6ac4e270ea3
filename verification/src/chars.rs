//! Character-level helpers shared by the parser, formatter and path logic:
//! decimal digits, whitespace, splitting and joining lines, and substring
//! search, each with a spec-level counterpart.

use vstd::prelude::*;

verus! {

/// Whitespace as `char::is_whitespace` recognizes it — the Unicode
/// `White_Space` set, written out by code point — used by the trimming
/// and blank-line checks.
pub open spec fn is_space(c: char) -> bool {
    let u = c as u32;
    (9 <= u && u <= 13) || u == 32 || u == 133 || u == 160 || u == 5760 || (8192 <= u && u
        <= 8202) || u == 8232 || u == 8233 || u == 8239 || u == 8287 || u == 12288
}

pub open spec fn is_digit(c: char) -> bool {
    48 <= c as u32 && c as u32 <= 57
}

/// Numeric value of a decimal digit character.
pub open spec fn digit_val(c: char) -> int {
    c as u32 - 48
}

/// The character for a single decimal digit.
pub open spec fn digit_char(d: int) -> char {
    if d == 0 {
        '0'
    } else if d == 1 {
        '1'
    } else if d == 2 {
        '2'
    } else if d == 3 {
        '3'
    } else if d == 4 {
        '4'
    } else if d == 5 {
        '5'
    } else if d == 6 {
        '6'
    } else if d == 7 {
        '7'
    } else if d == 8 {
        '8'
    } else {
        '9'
    }
}

proof fn lemma_digit_char_val(d: int)
    requires
        0 <= d <= 9,
    ensures
        is_digit(digit_char(d)),
        digit_val(digit_char(d)) == d,
        !is_space(digit_char(d)),
        digit_char(d) != '+',
{
}

/// Decimal rendering of a natural number, most significant digit first.
pub open spec fn spec_dec(n: nat) -> Seq<char>
    decreases n,
{
    if n < 10 {
        seq![digit_char(n as int)]
    } else {
        spec_dec(n / 10).push(digit_char((n % 10) as int))
    }
}

pub proof fn lemma_spec_dec_digits(n: nat)
    ensures
        spec_dec(n).len() >= 1,
        forall|i: int| 0 <= i < spec_dec(n).len() ==> is_digit(#[trigger] spec_dec(n)[i]),
    decreases n,
{
    if n < 10 {
        lemma_digit_char_val(n as int);
    } else {
        lemma_spec_dec_digits(n / 10);
        lemma_digit_char_val((n % 10) as int);
    }
}

/// Value of a sequence of decimal digit characters, most significant first.
pub open spec fn digits_val(s: Seq<char>) -> int
    decreases s.len(),
{
    if s.len() == 0 {
        0
    } else {
        digits_val(s.drop_last()) * 10 + digit_val(s.last())
    }
}

pub open spec fn all_digits(s: Seq<char>) -> bool {
    forall|i: int| 0 <= i < s.len() ==> is_digit(#[trigger] s[i])
}

pub proof fn lemma_digits_val_spec_dec(n: nat)
    ensures
        digits_val(spec_dec(n)) == n,
    decreases n,
{
    if n < 10 {
        lemma_digit_char_val(n as int);
        assert(spec_dec(n).drop_last() =~= Seq::<char>::empty());
        assert(digits_val(spec_dec(n)) == digits_val(spec_dec(n).drop_last()) * 10 + digit_val(
            spec_dec(n).last(),
        ));
    } else {
        lemma_digits_val_spec_dec(n / 10);
        lemma_digit_char_val((n % 10) as int);
        assert(spec_dec(n).drop_last() =~= spec_dec(n / 10));
        assert(digits_val(spec_dec(n)) == digits_val(spec_dec(n / 10)) * 10 + digit_val(
            digit_char((n % 10) as int),
        ));
        vstd::arithmetic::div_mod::lemma_fundamental_div_mod(n as int, 10);
    }
}

/// What `str::parse::<u64>` accepts: an optional leading plus sign, then one
/// or more decimal digits whose value fits the type.
pub open spec fn spec_parse_u64(s: Seq<char>) -> Option<u64> {
    let d = if s.len() > 0 && s[0] == '+' {
        s.drop_first()
    } else {
        s
    };
    if d.len() > 0 && all_digits(d) && digits_val(d) <= u64::MAX {
        Some(digits_val(d) as u64)
    } else {
        None
    }
}

/// What `str::parse::<u32>` accepts, phrased through the 64-bit parse: a
/// digit string rejected by one is rejected by the other.
pub open spec fn spec_parse_u32(s: Seq<char>) -> Option<u32> {
    match spec_parse_u64(s) {
        Some(v) => if v <= u32::MAX as u64 {
            Some(v as u32)
        } else {
            None
        },
        None => None,
    }
}

fn digit_to_char(d: u64) -> (c: char)
    requires
        d <= 9,
    ensures
        c == digit_char(d as int),
{
    if d == 0 {
        '0'
    } else if d == 1 {
        '1'
    } else if d == 2 {
        '2'
    } else if d == 3 {
        '3'
    } else if d == 4 {
        '4'
    } else if d == 5 {
        '5'
    } else if d == 6 {
        '6'
    } else if d == 7 {
        '7'
    } else if d == 8 {
        '8'
    } else {
        '9'
    }
}

/// Append the decimal rendering of `n` to `out`.
pub fn push_dec(out: &mut Vec<char>, n: u64)
    ensures
        final(out)@ == old(out)@ + spec_dec(n as nat),
    decreases n,
{
    if n < 10 {
        out.push(digit_to_char(n));
    } else {
        push_dec(out, n / 10);
        out.push(digit_to_char(n % 10));
    }
    assert(out@ =~= old(out)@ + spec_dec(n as nat));
}

/// Decimal rendering padded with zeros to at least two digits.
pub open spec fn spec_pad2(n: nat) -> Seq<char> {
    if n < 10 {
        seq!['0'] + spec_dec(n)
    } else {
        spec_dec(n)
    }
}

/// Decimal rendering padded with zeros to at least three digits.
pub open spec fn spec_pad3(n: nat) -> Seq<char> {
    if n < 10 {
        seq!['0', '0'] + spec_dec(n)
    } else if n < 100 {
        seq!['0'] + spec_dec(n)
    } else {
        spec_dec(n)
    }
}

pub fn push_pad2(out: &mut Vec<char>, n: u64)
    ensures
        final(out)@ == old(out)@ + spec_pad2(n as nat),
{
    if n < 10 {
        out.push('0');
    }
    push_dec(out, n);
    assert(out@ =~= old(out)@ + spec_pad2(n as nat));
}

pub fn push_pad3(out: &mut Vec<char>, n: u64)
    ensures
        final(out)@ == old(out)@ + spec_pad3(n as nat),
{
    if n < 10 {
        out.push('0');
        out.push('0');
    } else if n < 100 {
        out.push('0');
    }
    push_dec(out, n);
    assert(out@ =~= old(out)@ + spec_pad3(n as nat));
}

pub fn is_space_char(c: char) -> (r: bool)
    ensures
        r == is_space(c),
{
    let u = c as u32;
    (9 <= u && u <= 13) || u == 32 || u == 133 || u == 160 || u == 5760 || (8192 <= u && u <= 8202)
        || u == 8232 || u == 8233 || u == 8239 || u == 8287 || u == 12288
}

/// A line is blank when every character is whitespace; `str::trim` leaves
/// the empty string on exactly these lines.
pub open spec fn is_blank(s: Seq<char>) -> bool {
    forall|i: int| 0 <= i < s.len() ==> is_space(#[trigger] s[i])
}

pub fn blank_line(s: &Vec<char>) -> (r: bool)
    ensures
        r == is_blank(s@),
{
    let n = s.len();
    let mut i: usize = 0;
    while i < n
        invariant
            i <= n,
            n == s@.len(),
            forall|j: int| 0 <= j < i ==> is_space(#[trigger] s@[j]),
        decreases n - i,
    {
        if !is_space_char(s[i]) {
            return false;
        }
        i = i + 1;
    }
    true
}

/// What is left of a line once leading whitespace goes.
pub open spec fn trim_front(s: Seq<char>) -> Seq<char>
    decreases s.len(),
{
    if s.len() > 0 && is_space(s[0]) {
        trim_front(s.drop_first())
    } else {
        s
    }
}

/// What is left once trailing whitespace goes.
pub open spec fn trim_back(s: Seq<char>) -> Seq<char>
    decreases s.len(),
{
    if s.len() > 0 && is_space(s.last()) {
        trim_back(s.drop_last())
    } else {
        s
    }
}

/// `str::trim` over the characters the parser meets.
pub open spec fn spec_trim(s: Seq<char>) -> Seq<char> {
    trim_back(trim_front(s))
}

proof fn lemma_trim_front_range(s: Seq<char>, i: int)
    requires
        0 <= i <= s.len(),
        forall|j: int| 0 <= j < i ==> is_space(#[trigger] s[j]),
        i < s.len() ==> !is_space(s[i]),
    ensures
        trim_front(s) == s.skip(i),
    decreases i,
{
    if i == 0 {
        if s.len() > 0 {
            assert(s.skip(0) =~= s);
        } else {
            assert(s.skip(0) =~= s);
        }
    } else {
        assert(is_space(s[0]));
        assert(s.drop_first() =~= s.skip(1));
        lemma_trim_front_range(s.drop_first(), i - 1);
        assert(s.drop_first().skip(i - 1) =~= s.skip(i));
    }
}

proof fn lemma_trim_back_range(s: Seq<char>, i: int)
    requires
        0 <= i <= s.len(),
        forall|j: int| i <= j < s.len() ==> is_space(#[trigger] s[j]),
        i > 0 ==> !is_space(s[i - 1]),
    ensures
        trim_back(s) == s.take(i),
    decreases s.len() - i,
{
    if i == s.len() {
        assert(s.take(i) =~= s);
    } else {
        assert(is_space(s.last()));
        assert(s.drop_last() =~= s.take(s.len() - 1));
        lemma_trim_back_range(s.take(s.len() - 1), i);
        assert(s.take(s.len() - 1).take(i) =~= s.take(i));
    }
}

/// The bounds of the trimmed middle of `s[lo..hi]`: trimming equals taking
/// the returned subrange.
pub fn trim_range(s: &Vec<char>, lo: usize, hi: usize) -> (r: (usize, usize))
    requires
        lo <= hi <= s@.len(),
    ensures
        lo <= r.0 <= r.1 <= hi,
        s@.subrange(r.0 as int, r.1 as int) == spec_trim(s@.subrange(lo as int, hi as int)),
{
    let ghost sub = s@.subrange(lo as int, hi as int);
    let mut a = lo;
    while a < hi && is_space_char(s[a])
        invariant
            lo <= a <= hi <= s@.len(),
            sub == s@.subrange(lo as int, hi as int),
            forall|j: int| lo <= j < a ==> is_space(#[trigger] s@[j]),
        decreases hi - a,
    {
        a = a + 1;
    }
    proof {
        assert(forall|j: int| 0 <= j < a - lo ==> sub[j] == s@[lo + j] && is_space(#[trigger] sub[j]));
        lemma_trim_front_range(sub, a - lo);
    }
    let ghost fronted = sub.skip(a - lo);
    let mut b = hi;
    while b > a && is_space_char(s[b - 1])
        invariant
            lo <= a <= b <= hi <= s@.len(),
            forall|j: int| b <= j < hi ==> is_space(#[trigger] s@[j]),
        decreases b,
    {
        b = b - 1;
    }
    proof {
        assert(fronted =~= s@.subrange(a as int, hi as int));
        assert(forall|j: int| b - a <= j < fronted.len() ==> fronted[j] == s@[a + j] && is_space(
            #[trigger] fronted[j],
        ));
        lemma_trim_back_range(fronted, b - a);
        assert(fronted.take(b - a) =~= s@.subrange(a as int, b as int));
    }
    (a, b)
}

proof fn lemma_digits_val_nonneg(s: Seq<char>)
    requires
        all_digits(s),
    ensures
        digits_val(s) >= 0,
    decreases s.len(),
{
    if s.len() > 0 {
        assert(all_digits(s.drop_last()));
        lemma_digits_val_nonneg(s.drop_last());
    }
}

proof fn lemma_digits_val_take_step(s: Seq<char>, k: int)
    requires
        0 <= k < s.len(),
    ensures
        digits_val(s.take(k + 1)) == digits_val(s.take(k)) * 10 + digit_val(s[k]),
{
    assert(s.take(k + 1).drop_last() =~= s.take(k));
    assert(s.take(k + 1).last() == s[k]);
}

proof fn lemma_digits_val_grows(s: Seq<char>, k: int)
    requires
        all_digits(s),
        0 <= k <= s.len(),
    ensures
        digits_val(s.take(k)) <= digits_val(s),
    decreases s.len() - k,
{
    if k < s.len() {
        lemma_digits_val_take_step(s, k);
        assert(all_digits(s.take(k)));
        lemma_digits_val_nonneg(s.take(k));
        lemma_digits_val_grows(s, k + 1);
    } else {
        assert(s.take(k) =~= s);
    }
}

/// Parse the decimal digits of `s[lo..hi]` as `str::parse::<u64>` would.
#[verifier::loop_isolation(false)]
pub fn parse_u64_range(s: &Vec<char>, lo: usize, hi: usize) -> (r: Option<u64>)
    requires
        lo <= hi <= s@.len(),
    ensures
        r == spec_parse_u64(s@.subrange(lo as int, hi as int)),
{
    let ghost sub = s@.subrange(lo as int, hi as int);
    let mut i = lo;
    if i < hi && s[i] == '+' {
        i = i + 1;
    }
    let ghost d = if sub.len() > 0 && sub[0] == '+' {
        sub.drop_first()
    } else {
        sub
    };
    proof {
        assert(d =~= s@.subrange(i as int, hi as int));
    }
    if i == hi {
        return None;
    }
    let start = i;
    let mut acc: u64 = 0;
    while i < hi
        invariant
            lo <= start <= i <= hi <= s@.len(),
            d == s@.subrange(start as int, hi as int),
            all_digits(d.take(i - start)),
            acc == digits_val(d.take(i - start)),
        decreases hi - i,
    {
        let u = s[i] as u32;
        if u < 48 || u > 57 {
            proof {
                assert(!is_digit(d[i - start]));
            }
            return None;
        }
        let dv = (u - 48) as u64;
        proof {
            assert(d.take(i - start + 1).drop_last() =~= d.take(i - start));
            assert(d.take(i - start + 1).last() == d[i - start]);
        }
        let next = match acc.checked_mul(10) {
            Some(a) => a.checked_add(dv),
            None => None,
        };
        match next {
            Some(a) => {
                acc = a;
            },
            None => {
                proof {
                    assert(all_digits(d.take(i - start + 1)));
                    assert(digits_val(d.take(i - start + 1)) > u64::MAX);
                    if all_digits(d) {
                        lemma_digits_val_grows(d, i - start + 1);
                    }
                }
                return None;
            },
        }
        i = i + 1;
    }
    proof {
        assert(d.take(i - start) =~= d);
    }
    Some(acc)
}

/// Split `s` at every character satisfying `p`; the separators vanish and
/// the pieces stay in order, so there is always one piece more than there
/// are separators.
pub open spec fn spec_split(s: Seq<char>, p: spec_fn(char) -> bool) -> Seq<Seq<char>>
    decreases s.len(),
{
    if s.len() == 0 {
        seq![Seq::<char>::empty()]
    } else if p(s[0]) {
        seq![Seq::<char>::empty()] + spec_split(s.drop_first(), p)
    } else {
        let r = spec_split(s.drop_first(), p);
        seq![seq![s[0]] + r[0]] + r.drop_first()
    }
}

pub proof fn lemma_split_len(s: Seq<char>, p: spec_fn(char) -> bool)
    ensures
        spec_split(s, p).len() >= 1,
    decreases s.len(),
{
    if s.len() > 0 {
        lemma_split_len(s.drop_first(), p);
    }
}

/// Appending one character extends the last piece, or opens a fresh one.
pub proof fn lemma_split_snoc(s: Seq<char>, c: char, p: spec_fn(char) -> bool)
    ensures
        p(c) ==> spec_split(s.push(c), p) == spec_split(s, p).push(Seq::<char>::empty()),
        !p(c) ==> spec_split(s.push(c), p) == spec_split(s, p).drop_last().push(
            spec_split(s, p).last().push(c),
        ),
    decreases s.len(),
{
    lemma_split_len(s, p);
    if s.len() == 0 {
        assert(spec_split(Seq::<char>::empty(), p) == seq![Seq::<char>::empty()]);
        assert(s.push(c)[0] == c);
        assert(s.push(c).drop_first() =~= Seq::<char>::empty());
        if p(c) {
            assert(spec_split(s.push(c), p) =~~= spec_split(s, p).push(Seq::<char>::empty()));
        } else {
            assert(spec_split(s.push(c), p) =~~= spec_split(s, p).drop_last().push(
                spec_split(s, p).last().push(c),
            ));
        }
    } else {
        assert(s.push(c)[0] == s[0]);
        assert(s.push(c).drop_first() =~= s.drop_first().push(c));
        lemma_split_snoc(s.drop_first(), c, p);
        lemma_split_len(s.drop_first(), p);
        if p(c) {
            assert(spec_split(s.push(c), p) =~~= spec_split(s, p).push(Seq::<char>::empty()));
        } else {
            assert(spec_split(s.push(c), p) =~~= spec_split(s, p).drop_last().push(
                spec_split(s, p).last().push(c),
            ));
        }
    }
}

/// No piece of a split contains a separator.
pub proof fn lemma_split_pieces_free(s: Seq<char>, p: spec_fn(char) -> bool)
    ensures
        forall|i: int, j: int|
            0 <= i < spec_split(s, p).len() && 0 <= j < spec_split(s, p)[i].len() ==> !p(
                #[trigger] spec_split(s, p)[i][j],
            ),
    decreases s.len(),
{
    if s.len() > 0 {
        lemma_split_pieces_free(s.drop_first(), p);
        lemma_split_len(s.drop_first(), p);
    }
}

/// Splitting a separator-free sequence gives that sequence alone.
pub proof fn lemma_split_free(s: Seq<char>, p: spec_fn(char) -> bool)
    requires
        forall|i: int| 0 <= i < s.len() ==> !p(#[trigger] s[i]),
    ensures
        spec_split(s, p) == seq![s],
    decreases s.len(),
{
    if s.len() == 0 {
        assert(spec_split(s, p) =~~= seq![s]);
    } else {
        lemma_split_free(s.drop_first(), p);
        assert(spec_split(s, p) =~~= seq![s]);
    }
}

/// A separator splice: splitting `a + [c] + b` with `a` separator-free
/// begins with `a` and goes on as `b` splits.
pub proof fn lemma_split_splice(a: Seq<char>, c: char, b: Seq<char>, p: spec_fn(char) -> bool)
    requires
        p(c),
        forall|i: int| 0 <= i < a.len() ==> !p(#[trigger] a[i]),
    ensures
        spec_split(a + seq![c] + b, p) == seq![a] + spec_split(b, p),
    decreases a.len(),
{
    let s = a + seq![c] + b;
    if a.len() == 0 {
        assert(s[0] == c);
        assert(s.drop_first() =~= b);
        assert(spec_split(s, p) =~~= seq![a] + spec_split(b, p));
    } else {
        assert(s[0] == a[0]);
        assert(s.drop_first() =~= a.drop_first() + seq![c] + b);
        lemma_split_splice(a.drop_first(), c, b, p);
        lemma_split_len(a.drop_first() + seq![c] + b, p);
        assert(spec_split(s, p) =~~= seq![a] + spec_split(b, p));
    }
}

pub open spec fn is_newline(c: char) -> bool {
    c == '\n'
}

/// One trailing carriage return goes, as `str::lines` drops it.
pub open spec fn strip_cr(l: Seq<char>) -> Seq<char> {
    if l.len() > 0 && l.last() == '\r' {
        l.drop_last()
    } else {
        l
    }
}

/// The lines of `s`, as `str::lines` yields them: pieces between line
/// feeds, a final empty piece dropped, a trailing carriage return stripped
/// from each.
pub open spec fn spec_lines(s: Seq<char>) -> Seq<Seq<char>> {
    let p = spec_split(s, |c: char| is_newline(c));
    let q = if p.last().len() == 0 {
        p.drop_last()
    } else {
        p
    };
    q.map_values(|l: Seq<char>| strip_cr(l))
}

/// Exec splitting of the input into lines.
#[verifier::loop_isolation(false)]
pub fn split_lines(s: &Vec<char>) -> (r: Vec<Vec<char>>)
    ensures
        r.deep_view() == spec_lines(s@),
{
    let ghost p = |c: char| is_newline(c);
    let mut pieces: Vec<Vec<char>> = Vec::new();
    let mut cur: Vec<char> = Vec::new();
    let n = s.len();
    let mut i: usize = 0;
    proof {
        assert(s@.take(0) =~= Seq::<char>::empty());
        assert(spec_split(s@.take(0), p) =~~= pieces.deep_view().push(cur@));
    }
    while i < n
        invariant
            i <= n,
            spec_split(s@.take(i as int), p) == pieces.deep_view().push(cur@),
        decreases n - i,
    {
        let c = s[i];
        proof {
            assert(s@.take(i + 1) =~= s@.take(i as int).push(s@[i as int]));
            lemma_split_snoc(s@.take(i as int), s@[i as int], p);
        }
        let ghost old_pieces = pieces.deep_view();
        let ghost old_cur = cur@;
        if c == '\n' {
            pieces.push(cur);
            cur = Vec::new();
            proof {
                assert(pieces.deep_view() =~~= old_pieces.push(old_cur));
                assert(spec_split(s@.take(i + 1), p) =~~= pieces.deep_view().push(cur@));
            }
        } else {
            cur.push(c);
            proof {
                assert(spec_split(s@.take(i + 1), p) =~~= pieces.deep_view().push(cur@));
            }
        }
        i = i + 1;
    }
    proof {
        assert(s@.take(n as int) =~= s@);
    }
    let ghost whole = spec_split(s@, p);
    if cur.len() == 0 {
        proof {
            assert(whole.last().len() == 0);
            assert(whole.drop_last() =~~= pieces.deep_view());
        }
    } else {
        let ghost old_pieces = pieces.deep_view();
        let ghost old_cur = cur@;
        pieces.push(cur);
        proof {
            assert(pieces.deep_view() =~~= old_pieces.push(old_cur));
            assert(whole.last().len() != 0);
            assert(whole =~~= pieces.deep_view());
        }
    }
    let m = pieces.len();
    let mut out: Vec<Vec<char>> = Vec::new();
    let mut j: usize = 0;
    let ghost q = pieces.deep_view();
    while j < m
        invariant
            j <= m,
            m == pieces@.len(),
            q == pieces.deep_view(),
            out.deep_view() == q.take(j as int).map_values(|l: Seq<char>| strip_cr(l)),
        decreases m - j,
    {
        let mut piece = pieces[j].clone();
        proof {
            assert(piece@ =~~= q[j as int]);
        }
        let len = piece.len();
        if len > 0 && piece[len - 1] == '\r' {
            piece.pop();
            proof {
                assert(piece@ =~= strip_cr(q[j as int]));
            }
        }
        let ghost old_out = out.deep_view();
        out.push(piece);
        proof {
            assert(out.deep_view() =~~= old_out.push(strip_cr(q[j as int])));
            assert(q.take(j + 1).map_values(|l: Seq<char>| strip_cr(l)) =~~= q.take(
                j as int,
            ).map_values(|l: Seq<char>| strip_cr(l)).push(strip_cr(q[j as int])));
        }
        j = j + 1;
    }
    proof {
        assert(q.take(m as int) =~= q);
        assert(out.deep_view() =~~= spec_lines(s@));
    }
    out
}

/// The inverse of line splitting for the formatter: every line, each
/// followed by one line feed.
pub open spec fn unlines(ls: Seq<Seq<char>>) -> Seq<char>
    decreases ls.len(),
{
    if ls.len() == 0 {
        Seq::<char>::empty()
    } else {
        ls[0] + seq!['\n'] + unlines(ls.drop_first())
    }
}

pub proof fn lemma_unlines_snoc(ls: Seq<Seq<char>>, l: Seq<char>)
    ensures
        unlines(ls.push(l)) == unlines(ls) + l + seq!['\n'],
    decreases ls.len(),
{
    if ls.len() == 0 {
        assert(unlines(Seq::<Seq<char>>::empty()) == Seq::<char>::empty());
        assert(ls.push(l)[0] == l);
        assert(ls.push(l).drop_first() =~= Seq::<Seq<char>>::empty());
        assert(unlines(ls.push(l)) =~= unlines(ls) + l + seq!['\n']);
    } else {
        assert(ls.push(l)[0] == ls[0]);
        assert(ls.push(l).drop_first() =~= ls.drop_first().push(l));
        lemma_unlines_snoc(ls.drop_first(), l);
        assert(unlines(ls.push(l)) =~= unlines(ls) + l + seq!['\n']);
    }
}

pub proof fn lemma_unlines_concat(a: Seq<Seq<char>>, b: Seq<Seq<char>>)
    ensures
        unlines(a + b) == unlines(a) + unlines(b),
    decreases a.len(),
{
    if a.len() == 0 {
        assert(a + b =~= b);
        assert(unlines(a + b) =~= unlines(a) + unlines(b));
    } else {
        assert((a + b).drop_first() =~= a.drop_first() + b);
        lemma_unlines_concat(a.drop_first(), b);
        assert(unlines(a + b) =~= unlines(a) + unlines(b));
    }
}

/// Splitting what `unlines` built recovers the lines (with one trailing
/// empty piece for the final line feed), provided no line holds a line
/// feed of its own.
pub proof fn lemma_split_unlines(ls: Seq<Seq<char>>)
    requires
        forall|i: int, j: int|
            0 <= i < ls.len() && 0 <= j < ls[i].len() ==> !is_newline(#[trigger] ls[i][j]),
    ensures
        spec_split(unlines(ls), |c: char| is_newline(c)) == ls + seq![Seq::<char>::empty()],
    decreases ls.len(),
{
    let p = |c: char| is_newline(c);
    if ls.len() == 0 {
        assert(spec_split(unlines(ls), p) =~~= ls + seq![Seq::<char>::empty()]);
    } else {
        lemma_split_unlines(ls.drop_first());
        assert(unlines(ls) =~= ls[0] + seq!['\n'] + unlines(ls.drop_first()));
        lemma_split_splice(ls[0], '\n', unlines(ls.drop_first()), p);
        assert(spec_split(unlines(ls), p) =~~= ls + seq![Seq::<char>::empty()]);
    }
}

/// `pat` occurs in `s` at position `i`.
pub open spec fn match_at(s: Seq<char>, pat: Seq<char>, i: int) -> bool {
    0 <= i && i + pat.len() <= s.len() && s.subrange(i, i + pat.len()) == pat
}

/// The first occurrence of `pat` in `s` at or after `i`.
pub open spec fn spec_find_from(s: Seq<char>, pat: Seq<char>, i: int) -> Option<int>
    decreases s.len() - i + 1,
{
    if i < 0 || i + pat.len() > s.len() {
        None
    } else if s.subrange(i, i + pat.len()) == pat {
        Some(i)
    } else {
        spec_find_from(s, pat, i + 1)
    }
}

pub proof fn lemma_find_from_some(s: Seq<char>, pat: Seq<char>, i: int, j: int)
    requires
        spec_find_from(s, pat, i) == Some(j),
    ensures
        i <= j,
        match_at(s, pat, j),
        forall|k: int| i <= k < j ==> !(#[trigger] match_at(s, pat, k)),
    decreases s.len() - i + 1,
{
    if !(i < 0 || i + pat.len() > s.len()) && s.subrange(i, i + pat.len()) != pat {
        lemma_find_from_some(s, pat, i + 1, j);
    }
}

pub proof fn lemma_find_from_none(s: Seq<char>, pat: Seq<char>, i: int)
    requires
        0 <= i,
        spec_find_from(s, pat, i) is None,
    ensures
        forall|k: int| i <= k ==> !(#[trigger] match_at(s, pat, k)),
    decreases s.len() - i + 1,
{
    if i + pat.len() > s.len() {
    } else {
        lemma_find_from_none(s, pat, i + 1);
    }
}

/// If `pat` first matches at `j`, the search from `i` says so.
pub proof fn lemma_find_from_val(s: Seq<char>, pat: Seq<char>, i: int, j: int)
    requires
        0 <= i <= j,
        match_at(s, pat, j),
        forall|k: int| i <= k < j ==> !(#[trigger] match_at(s, pat, k)),
    ensures
        spec_find_from(s, pat, i) == Some(j),
    decreases j - i,
{
    if i < j {
        assert(!match_at(s, pat, i));
        lemma_find_from_val(s, pat, i + 1, j);
    }
}

/// When nothing matches from `i` on, the search from `i` fails.
pub proof fn lemma_find_from_fails(s: Seq<char>, pat: Seq<char>, i: int)
    requires
        0 <= i,
        forall|k: int| i <= k ==> !(#[trigger] match_at(s, pat, k)),
    ensures
        spec_find_from(s, pat, i) is None,
    decreases s.len() - i + 1,
{
    if !(i < 0 || i + pat.len() > s.len()) {
        assert(!match_at(s, pat, i));
        lemma_find_from_fails(s, pat, i + 1);
    }
}

/// Parse as `str::parse::<u32>` would.
pub fn parse_u32_range(s: &Vec<char>, lo: usize, hi: usize) -> (r: Option<u32>)
    requires
        lo <= hi <= s@.len(),
    ensures
        r == spec_parse_u32(s@.subrange(lo as int, hi as int)),
{
    match parse_u64_range(s, lo, hi) {
        Some(v) => if v <= u32::MAX as u64 {
            Some(v as u32)
        } else {
            None
        },
        None => None,
    }
}

/// First occurrence of `pat` in `s` at or after `lo`.
#[verifier::loop_isolation(false)]
pub fn find_from(s: &Vec<char>, lo: usize, pat: &Vec<char>) -> (r: Option<usize>)
    requires
        lo <= s@.len(),
    ensures
        (r matches Some(j) ==> spec_find_from(s@, pat@, lo as int) == Some(j as int) && lo <= j
            && match_at(s@, pat@, j as int)),
        r is None ==> spec_find_from(s@, pat@, lo as int) is None,
{
    let n = s.len();
    let m = pat.len();
    let mut i = lo;
    while i <= n
        invariant
            lo <= i <= n + 1,
            forall|k: int| lo <= k < i ==> !(#[trigger] match_at(s@, pat@, k)),
        decreases n - i + 1,
    {
        if m > n - i {
            proof {
                assert(forall|k: int| lo <= k ==> !(#[trigger] match_at(s@, pat@, k)));
                lemma_find_from_fails(s@, pat@, lo as int);
            }
            return None;
        }
        let mut k: usize = 0;
        let mut hit = true;
        while k < m
            invariant
                0 <= k <= m,
                i + m <= n,
                hit ==> forall|t: int| 0 <= t < k ==> s@[i + t] == pat@[t],
                !hit ==> m > 0 && !match_at(s@, pat@, i as int),
            decreases m - k,
        {
            if s[i + k] != pat[k] {
                proof {
                    if match_at(s@, pat@, i as int) {
                        assert(s@.subrange(i as int, i + m)[k as int] == s@[i + k]);
                    }
                }
                hit = false;
                k = m;
            } else {
                k = k + 1;
            }
        }
        if hit {
            proof {
                assert(s@.subrange(i as int, i + m) =~= pat@);
                lemma_find_from_val(s@, pat@, lo as int, i as int);
            }
            return Some(i);
        }
        i = i + 1;
    }
    proof {
        assert(forall|k: int| lo <= k ==> !(#[trigger] match_at(s@, pat@, k)));
        lemma_find_from_fails(s@, pat@, lo as int);
    }
    None
}

/// `pat` occurs somewhere in `s`.
pub open spec fn spec_contains(s: Seq<char>, pat: Seq<char>) -> bool {
    exists|i: int| match_at(s, pat, i)
}

pub fn contains_sub(s: &Vec<char>, pat: &Vec<char>) -> (r: bool)
    ensures
        r == spec_contains(s@, pat@),
{
    match find_from(s, 0, pat) {
        Some(j) => {
            proof {
                assert(match_at(s@, pat@, j as int));
            }
            true
        },
        None => {
            proof {
                lemma_find_from_none(s@, pat@, 0);
                if spec_contains(s@, pat@) {
                    let i = choose|i: int| match_at(s@, pat@, i);
                    assert(!match_at(s@, pat@, i));
                }
            }
            false
        },
    }
}

/// Append `s[lo..hi]` to `out`.
pub fn push_range(out: &mut Vec<char>, s: &Vec<char>, lo: usize, hi: usize)
    requires
        lo <= hi <= s@.len(),
    ensures
        final(out)@ == old(out)@ + s@.subrange(lo as int, hi as int),
{
    let mut k = lo;
    while k < hi
        invariant
            lo <= k <= hi <= s@.len(),
            out@ == old(out)@ + s@.subrange(lo as int, k as int),
        decreases hi - k,
    {
        out.push(s[k]);
        proof {
            assert(out@ =~= old(out)@ + s@.subrange(lo as int, k + 1));
        }
        k = k + 1;
    }
}

/// Every occurrence of a non-empty `pat`, found left to right, becomes
/// `sub`, as `str::replace` does; an empty pattern leaves the text
/// unchanged, where `str::replace` would interleave the substitute.  (The
/// inner bounds check only keeps the definition total; a found occurrence
/// always lies within the text.)
pub open spec fn spec_replace(s: Seq<char>, pat: Seq<char>, sub: Seq<char>) -> Seq<char>
    decreases s.len(),
{
    if pat.len() == 0 {
        s
    } else {
        match spec_find_from(s, pat, 0) {
            Some(i) => if 0 <= i && i + pat.len() <= s.len() {
                s.take(i) + sub + spec_replace(s.skip(i + pat.len()), pat, sub)
            } else {
                s
            },
            None => s,
        }
    }
}

/// Searching from `i` is searching the tail that starts at `i`.
pub proof fn lemma_find_from_shift(s: Seq<char>, pat: Seq<char>, i: int)
    requires
        0 <= i <= s.len(),
    ensures
        spec_find_from(s, pat, i) == match spec_find_from(s.skip(i), pat, 0) {
            Some(j) => Some(i + j),
            None => None,
        },
    decreases s.len() - i,
{
    let t = s.skip(i);
    match spec_find_from(t, pat, 0) {
        Some(j) => {
            lemma_find_from_some(t, pat, 0, j);
            assert(t.subrange(j, j + pat.len()) =~= s.subrange(i + j, i + j + pat.len()));
            assert(match_at(s, pat, i + j));
            assert(forall|k: int| i <= k < i + j ==> !(#[trigger] match_at(s, pat, k))) by {
                assert forall|k: int| i <= k < i + j implies !match_at(s, pat, k) by {
                    if match_at(s, pat, k) {
                        assert(s.subrange(k, k + pat.len()) =~= t.subrange(
                            k - i,
                            k - i + pat.len(),
                        ));
                        assert(match_at(t, pat, k - i));
                    }
                }
            }
            lemma_find_from_val(s, pat, i, i + j);
        },
        None => {
            lemma_find_from_none(t, pat, 0);
            assert(forall|k: int| i <= k ==> !(#[trigger] match_at(s, pat, k))) by {
                assert forall|k: int| i <= k implies !match_at(s, pat, k) by {
                    if match_at(s, pat, k) {
                        assert(s.subrange(k, k + pat.len()) =~= t.subrange(
                            k - i,
                            k - i + pat.len(),
                        ));
                        assert(match_at(t, pat, k - i));
                    }
                }
            }
            lemma_find_from_fails(s, pat, i);
        },
    }
}

/// Replace every occurrence of a non-empty `pat` in `s` by `sub`, as
/// `str::replace` does; an empty pattern leaves `s` unchanged.
pub fn replace_chars(s: &Vec<char>, pat: &Vec<char>, sub: &Vec<char>) -> (r: Vec<char>)
    ensures
        r@ == spec_replace(s@, pat@, sub@),
{
    let n = s.len();
    let m = pat.len();
    let mut out: Vec<char> = Vec::new();
    if m == 0 {
        push_range(&mut out, s, 0, n);
        proof {
            assert(out@ =~= s@);
        }
        return out;
    }
    let mut i: usize = 0;
    proof {
        assert(s@.skip(0) =~= s@);
        assert(out@ + spec_replace(s@.skip(0), pat@, sub@) =~= spec_replace(s@, pat@, sub@));
    }
    loop
        invariant_except_break
            i <= n,
            m == pat@.len(),
            n == s@.len(),
            m >= 1,
            spec_replace(s@, pat@, sub@) == out@ + spec_replace(s@.skip(i as int), pat@, sub@),
        ensures
            out@ == spec_replace(s@, pat@, sub@),
        decreases n - i,
    {
        let ghost rest = s@.skip(i as int);
        proof {
            lemma_find_from_shift(s@, pat@, i as int);
        }
        match find_from(s, i, pat) {
            Some(j) => {
                proof {
                    lemma_find_from_some(s@, pat@, i as int, j as int);
                }
                let ghost old_out = out@;
                push_range(&mut out, s, i, j);
                push_range(&mut out, sub, 0, sub.len());
                proof {
                    let jj = j - i;
                    assert(spec_find_from(rest, pat@, 0) == Some(jj));
                    assert(rest.take(jj) =~= s@.subrange(i as int, j as int));
                    assert(rest.skip(jj + m) =~= s@.skip(j + m));
                    assert(sub@.subrange(0, sub@.len() as int) =~= sub@);
                    assert(spec_replace(rest, pat@, sub@) == rest.take(jj) + sub@ + spec_replace(
                        s@.skip(j + m),
                        pat@,
                        sub@,
                    ));
                    assert(out@ + spec_replace(s@.skip(j + m), pat@, sub@) =~= old_out
                        + spec_replace(rest, pat@, sub@));
                }
                i = j + m;
            },
            None => {
                push_range(&mut out, s, i, n);
                proof {
                    assert(spec_replace(rest, pat@, sub@) == rest);
                    assert(rest =~= s@.subrange(i as int, n as int));
                }
                break ;
            },
        }
    }
    out
}

/// The lines of a block joined by single line feeds, as `[String]::join`
/// does.
pub open spec fn spec_join_nl(ls: Seq<Seq<char>>) -> Seq<char>
    decreases ls.len(),
{
    if ls.len() == 0 {
        Seq::<char>::empty()
    } else if ls.len() == 1 {
        ls[0]
    } else {
        ls[0] + seq!['\n'] + spec_join_nl(ls.drop_first())
    }
}

pub proof fn lemma_join_nl_snoc(ls: Seq<Seq<char>>, l: Seq<char>)
    ensures
        ls.len() == 0 ==> spec_join_nl(ls.push(l)) == l,
        ls.len() > 0 ==> spec_join_nl(ls.push(l)) == spec_join_nl(ls) + seq!['\n'] + l,
    decreases ls.len(),
{
    if ls.len() == 0 {
        assert(ls.push(l)[0] == l);
    } else {
        assert(ls.push(l)[0] == ls[0]);
        assert(ls.push(l).drop_first() =~= ls.drop_first().push(l));
        lemma_join_nl_snoc(ls.drop_first(), l);
        if ls.len() == 1 {
            assert(spec_join_nl(ls.push(l)) =~= spec_join_nl(ls) + seq!['\n'] + l);
        } else {
            assert(spec_join_nl(ls.push(l)) =~= spec_join_nl(ls) + seq!['\n'] + l);
        }
    }
}

/// Join the lines with line feeds into one string.
#[verifier::loop_isolation(false)]
pub fn join_lines(ls: &Vec<String>) -> (r: String)
    ensures
        r@ == spec_join_nl(ls.deep_view()),
{
    let mut out: Vec<char> = Vec::new();
    let n = ls.len();
    let mut i: usize = 0;
    while i < n
        invariant
            i <= n,
            out@ == spec_join_nl(ls.deep_view().take(i as int)),
        decreases n - i,
    {
        if i > 0 {
            out.push('\n');
        }
        let cs = str_chars(ls[i].as_str());
        let ghost before = out@;
        push_range(&mut out, &cs, 0, cs.len());
        proof {
            let dv = ls.deep_view();
            assert(cs@.subrange(0, cs@.len() as int) =~= dv[i as int]);
            assert(dv.take(i + 1) =~= dv.take(i as int).push(dv[i as int]));
            lemma_join_nl_snoc(dv.take(i as int), dv[i as int]);
            if i == 0 {
                assert(out@ =~= spec_join_nl(dv.take(i + 1)));
            } else {
                assert(out@ =~= spec_join_nl(dv.take(i + 1)));
            }
        }
        i = i + 1;
    }
    proof {
        assert(ls.deep_view().take(n as int) =~= ls.deep_view());
    }
    chars_string(&out)
}

/// Case-insensitive equality over the ASCII letters, one character to one
/// character.
pub open spec fn ascii_case_eq_char(a: char, b: char) -> bool {
    a == b || (65 <= a as u32 <= 90 && b as u32 == a as u32 + 32) || (65 <= b as u32 <= 90
        && a as u32 == b as u32 + 32)
}

pub open spec fn spec_ascii_caseless_eq(a: Seq<char>, b: Seq<char>) -> bool {
    a.len() == b.len() && forall|i: int|
        0 <= i < a.len() ==> ascii_case_eq_char(#[trigger] a[i], b[i])
}

/// `str::eq_ignore_ascii_case` over character sequences.
#[verifier::loop_isolation(false)]
pub fn ascii_caseless_eq(a: &Vec<char>, b: &Vec<char>) -> (r: bool)
    ensures
        r == spec_ascii_caseless_eq(a@, b@),
{
    if a.len() != b.len() {
        return false;
    }
    let n = a.len();
    let mut i: usize = 0;
    while i < n
        invariant
            i <= n,
            forall|j: int| 0 <= j < i ==> ascii_case_eq_char(#[trigger] a@[j], b@[j]),
        decreases n - i,
    {
        let ca = a[i];
        let cb = b[i];
        let x = ca as u32;
        let y = cb as u32;
        let ok = ca == cb || (65 <= x && x <= 90 && y == x + 32) || (65 <= y && y <= 90 && x == y
            + 32);
        if !ok {
            return false;
        }
        i = i + 1;
    }
    true
}

/// The characters of a string, in order, as a vector.
pub fn str_chars(s: &str) -> (r: Vec<char>)
    ensures
        r@ == s@,
{
    let mut v: Vec<char> = Vec::new();
    for c in it: s.chars()
        invariant
            it.seq() == s@,
            v@ == it.seq().take(it.index()),
    {
        v.push(c);
    }
    proof {
        assert(v@ =~= s@);
    }
    v
}

/// Relies on `String`'s `FromIterator<char>`: collecting characters builds
/// the string of exactly those characters.
#[verifier::external_body]
pub fn chars_string(v: &Vec<char>) -> (r: String)
    ensures
        r@ == v@,
{
    v.iter().collect()
}

} // verus!
