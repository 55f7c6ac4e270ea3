//! Translation orchestration: batching blocks for a pluggable provider,
//! validating and retrying its answers, reassembling out-of-order
//! completions in strict block order, and reporting progress.

use crate::chars::{
    chars_string, push_dec, push_range, spec_dec, spec_join_nl, spec_lines, spec_replace,
    split_lines, str_chars,
};
use crate::srt::{clone_lines, lines_eq, BlockModel, SrtBlock};
use vstd::prelude::*;

verus! {

/// Default number of subtitle blocks translated per batch.
pub const DEFAULT_BATCH_SIZE: usize = 50;

/// How many source lines of context ride along with each batch.
pub const CONTEXT_LINES: usize = 4;

/// A single line paired with the index of the block it came from, so the
/// answer can be matched up after a batch completes out of order.
#[derive(Debug)]
pub struct IndexedLine {
    /// Block index the line belongs to.
    pub index: u32,
    /// Text content of the line.
    pub text: String,
}

/// The mathematical shape of an indexed line.
#[verifier::ext_equal]
pub ghost struct LineModel {
    pub index: u32,
    pub text: Seq<char>,
}

impl View for IndexedLine {
    type V = LineModel;

    open spec fn view(&self) -> LineModel {
        LineModel { index: self.index, text: self.text@ }
    }
}

impl DeepView for IndexedLine {
    type V = LineModel;

    open spec fn deep_view(&self) -> LineModel {
        self.view()
    }
}

impl Clone for IndexedLine {
    /// A clone carries the same model.
    fn clone(&self) -> (r: Self)
        ensures
            r@ == self@,
    {
        IndexedLine { index: self.index, text: self.text.clone() }
    }
}

impl PartialEq for IndexedLine {
    /// Two lines are equal when index and text are.
    fn eq(&self, other: &Self) -> (r: bool) {
        self.index == other.index && self.text == other.text
    }
}

impl vstd::std_specs::cmp::PartialEqSpecImpl for IndexedLine {
    open spec fn obeys_eq_spec() -> bool {
        true
    }

    open spec fn eq_spec(&self, other: &Self) -> bool {
        self@ == other@
    }
}

/// A failure reported by a translation provider.
#[derive(Debug)]
pub struct ProviderError {
    /// What the provider said went wrong.
    pub message: String,
}

/// Translates batches of indexed lines and builds a glossary summary.
/// Implementations wrap a real backend; nothing is assumed of what they
/// return, so every answer is validated by the caller.
pub trait Translator: Sized {
    /// Translate `lines` to the target locale, preserving each line's
    /// index; `prev` carries up to [`CONTEXT_LINES`] source lines before
    /// the batch.
    fn translate_batch(
        &self,
        summary: &str,
        prev: &Vec<String>,
        lines: &Vec<IndexedLine>,
        target_locale: &str,
    ) -> Result<Vec<IndexedLine>, ProviderError>;

    /// Build a glossary and summary from a sample of source lines.
    fn build_glossary(&self, sample: &Vec<String>) -> Result<String, ProviderError>;
}

/// Copy a vector of indexed lines; the copy carries the same models.
pub fn clone_indexed_lines(v: &Vec<IndexedLine>) -> (r: Vec<IndexedLine>)
    ensures
        r.deep_view() == v.deep_view(),
{
    let mut out: Vec<IndexedLine> = Vec::new();
    let n = v.len();
    let mut i: usize = 0;
    while i < n
        invariant
            i <= n,
            n == v@.len(),
            out.deep_view() == v.deep_view().take(i as int),
        decreases n - i,
    {
        let l = v[i].clone();
        let ghost pv = out@;
        proof {
            assert(out.deep_view().len() == i as int);
            assert(pv.len() == i as int);
        }
        out.push(l);
        proof {
            assert(out.deep_view() =~~= v.deep_view().take(i + 1));
        }
        i = i + 1;
    }
    proof {
        assert(v.deep_view().take(n as int) =~= v.deep_view());
    }
    out
}

/// A provider's answer must be retried when it has the wrong number of
/// lines or echoes any source line back unchanged.
pub open spec fn spec_needs_retry(orig: Seq<LineModel>, got: Seq<LineModel>) -> bool {
    got.len() != orig.len() || exists|i: int|
        0 <= i < got.len() && #[trigger] got[i].text == orig[i].text
}

/// Decide whether a batch answer must be retried.
pub fn needs_retry(orig: &Vec<IndexedLine>, got: &Vec<IndexedLine>) -> (r: bool)
    ensures
        r == spec_needs_retry(orig.deep_view(), got.deep_view()),
{
    if got.len() != orig.len() {
        return true;
    }
    let n = got.len();
    let mut i: usize = 0;
    while i < n
        invariant
            i <= n,
            n == got@.len() == orig@.len(),
            forall|j: int|
                0 <= j < i ==> #[trigger] got.deep_view()[j].text != orig.deep_view()[j].text,
        decreases n - i,
    {
        if got[i].text == orig[i].text {
            proof {
                assert(got.deep_view()[i as int].text == orig.deep_view()[i as int].text);
            }
            return true;
        }
        i = i + 1;
    }
    false
}

/// The glossary sample: the first lines of the track in block order, at
/// most fifteen of them.
pub open spec fn spec_sample(bs: Seq<BlockModel>) -> Seq<Seq<char>> {
    clamp15(bs.flat_map(|b: BlockModel| b.text))
}

/// Collect the first at-most-fifteen source lines across the blocks, in
/// order, for the glossary request.
#[verifier::loop_isolation(false)]
pub fn glossary_sample(blocks: &Vec<SrtBlock>) -> (r: Vec<String>)
    ensures
        r.deep_view() == spec_sample(blocks.deep_view()),
{
    let ghost bs = blocks.deep_view();
    let ghost f = |b: BlockModel| b.text;
    let mut sample: Vec<String> = Vec::new();
    let n = blocks.len();
    let mut i: usize = 0;
    proof {
        assert(bs.take(0).map_values(f) =~= Seq::<Seq<Seq<char>>>::empty());
        assert(Seq::<Seq<Seq<char>>>::empty().flatten() == Seq::<Seq<char>>::empty());
        assert(sample.deep_view() =~= clamp15(bs.take(0).flat_map(f)));
    }
    while i < n
        invariant
            i <= n,
            sample@.len() <= 15,
            sample.deep_view() == clamp15(bs.take(i as int).flat_map(f)),
        decreases n - i,
    {
        let block = &blocks[i];
        let m = block.text.len();
        let mut j: usize = 0;
        proof {
            assert(block@ == bs[i as int]);
            assert(bs.take(i as int).flat_map(f) + block@.text.take(0) =~= bs.take(
                i as int,
            ).flat_map(f));
        }
        while j < m
            invariant
                j <= m,
                m == block.text@.len(),
                block@ == bs[i as int],
                sample@.len() <= 15,
                sample.deep_view() == clamp15(
                    bs.take(i as int).flat_map(f) + block@.text.take(j as int),
                ),
            decreases m - j,
        {
            let ghost prefix = bs.take(i as int).flat_map(f);
            let ghost x_old = prefix + block@.text.take(j as int);
            if sample.len() >= 15 {
                proof {
                    let x_new = prefix + block@.text.take(m as int);
                    assert(sample@.len() == 15);
                    assert(sample.deep_view().len() == 15);
                    assert(x_old.len() >= 15);
                    assert(x_new.take(15) =~= x_old.take(15));
                    assert(clamp15(x_old) =~= x_old.take(15));
                    assert(clamp15(x_new) =~= x_new.take(15));
                }
                j = m;
            } else {
                let ghost before = sample.deep_view();
                let s = block.text[j].clone();
                proof {
                    assert(s@ == block@.text[j as int]);
                    assert(before.len() == sample@.len());
                }
                sample.push(s);
                proof {
                    assert(sample.deep_view() =~~= before.push(block@.text[j as int]));
                    let x_new = prefix + block@.text.take(j + 1);
                    assert(x_new =~= x_old.push(block@.text[j as int]));
                    assert(x_old.len() < 15);
                    assert(clamp15(x_old) == x_old);
                    assert(clamp15(x_new) =~= x_old.push(block@.text[j as int]));
                }
                j = j + 1;
            }
        }
        proof {
            let prefix = bs.take(i as int).flat_map(f);
            assert(block@.text.take(m as int) =~= block@.text);
            bs.take(i as int).lemma_flat_map_push(f, bs[i as int]);
            assert(bs.take(i as int).push(bs[i as int]) =~= bs.take(i + 1));
            assert(bs.take(i + 1).flat_map(f) == prefix + block@.text);
            assert(prefix + block@.text.take(m as int) =~= prefix + block@.text);
        }
        i = i + 1;
    }
    proof {
        assert(bs.take(n as int) =~= bs);
    }
    sample
}

/// At most the first fifteen entries.
pub open spec fn clamp15(s: Seq<Seq<char>>) -> Seq<Seq<char>> {
    if s.len() <= 15 {
        s
    } else {
        s.take(15)
    }
}

/// Whole batches still to translate: a last short batch counts once.
pub open spec fn spec_ceil_div(a: int, b: int) -> int {
    (a + b - 1) / b
}

/// Estimate the milliseconds of work left: the average of the last two
/// batch durations times the number of batches still to run.
pub fn estimate_remaining(prev_ms: u128, curr_ms: u128, remaining: usize, batch: usize) -> (r:
    u128)
    requires
        batch >= 1,
        remaining + batch <= usize::MAX,
        prev_ms + curr_ms <= u128::MAX,
        ((prev_ms + curr_ms) / 2) * spec_ceil_div(remaining as int, batch as int) <= u128::MAX,
    ensures
        r == ((prev_ms + curr_ms) / 2) * spec_ceil_div(remaining as int, batch as int),
{
    let avg = (prev_ms + curr_ms) / 2;
    let batches = (remaining + batch - 1) / batch;
    proof {
        assert(avg * (batches as u128) == avg * spec_ceil_div(remaining as int, batch as int));
    }
    avg * (batches as u128)
}

/// Percent of blocks flushed so far, rounded down.
pub fn percent_complete(next: usize, total: usize) -> (r: u64)
    requires
        1 <= total,
        next <= total,
    ensures
        r as int == (next * 100) / (total as int),
        r <= 100,
{
    let n = next as u128;
    let t = total as u128;
    let p = (n * 100) / t;
    proof {
        assert((n as int) * 100 <= (t as int) * 100) by (nonlinear_arith)
            requires
                n <= t,
        ;
        vstd::arithmetic::div_mod::lemma_div_is_ordered((n as int) * 100, (t as int) * 100, t as int);
        vstd::arithmetic::div_mod::lemma_div_by_multiple(100, t as int);
        assert(((t as int) * 100) / (t as int) == 100) by {
            assert((t as int) * 100 == 100 * (t as int)) by (nonlinear_arith);
        }
        assert(p <= 100);
    }
    p as u64
}

/// The estimate attached to a flush event: absent until two batches have
/// finished, when nothing remains, or when the numbers no longer fit.
pub open spec fn spec_flush_estimate(
    prev: Option<u128>,
    curr: u128,
    remaining: int,
    batch: int,
) -> Option<u128> {
    match prev {
        Some(p) => if remaining > 0 && p + curr <= u128::MAX && remaining + batch <= usize::MAX
            && ((p + curr) / 2) * spec_ceil_div(remaining, batch) <= u128::MAX {
            Some((((p + curr) / 2) * spec_ceil_div(remaining, batch)) as u128)
        } else {
            None
        },
        None => None,
    }
}

/// `format_eta`'s exact output: minutes and seconds in words, the minutes
/// term dropped when it is zero, each word pluralised except for one.
pub open spec fn spec_format_eta(ms: nat) -> Seq<char> {
    let total = ms / 1000;
    let m = total / 60;
    let s = total % 60;
    let mins = spec_dec(m) + " minute"@ + (if m == 1 {
        Seq::<char>::empty()
    } else {
        "s"@
    }) + " "@;
    let secs = spec_dec(s) + " second"@ + (if s == 1 {
        Seq::<char>::empty()
    } else {
        "s"@
    });
    if m > 0 {
        mins + secs
    } else {
        secs
    }
}

/// Append the decimal rendering of a 128-bit count to `out`.
fn push_dec_u128(out: &mut Vec<char>, n: u128)
    ensures
        final(out)@ == old(out)@ + spec_dec(n as nat),
    decreases n,
{
    if n < 10 {
        let d = (n % 10) as u64;
        push_dec(out, d);
    } else {
        push_dec_u128(out, n / 10);
        let d = (n % 10) as u64;
        let ghost mid = out@;
        push_dec(out, d);
        proof {
            assert(spec_dec((n % 10) as nat) =~= seq![crate::chars::digit_char((n % 10) as int)]);
        }
    }
    assert(out@ =~= old(out)@ + spec_dec(n as nat));
}

/// Render a duration in milliseconds as readable minutes and seconds.
pub fn format_eta(ms: u128) -> (r: String)
    ensures
        r@ == spec_format_eta(ms as nat),
{
    let total_secs = ms / 1000;
    let minutes = total_secs / 60;
    let seconds = total_secs % 60;
    let mut out: Vec<char> = Vec::new();
    proof {
        reveal_strlit("s");
        reveal_strlit(" ");
    }
    if minutes > 0 {
        push_dec_u128(&mut out, minutes);
        let w = str_chars(" minute");
        push_range(&mut out, &w, 0, w.len());
        proof {
            assert(w@.subrange(0, w@.len() as int) =~= " minute"@);
        }
        if minutes != 1 {
            out.push('s');
            proof {
                assert("s"@ =~= seq!['s']);
            }
        }
        out.push(' ');
        proof {
            assert(" "@ =~= seq![' ']);
        }
    }
    push_dec_u128(&mut out, seconds);
    let w2 = str_chars(" second");
    push_range(&mut out, &w2, 0, w2.len());
    proof {
        assert(w2@.subrange(0, w2@.len() as int) =~= " second"@);
    }
    if seconds != 1 {
        out.push('s');
        proof {
            assert("s"@ =~= seq!['s']);
        }
    }
    proof {
        assert(out@ =~= spec_format_eta(ms as nat));
    }
    chars_string(&out)
}

/// Replace the language placeholder in a prompt template.
pub fn with_language(template: &str, language: &str) -> (r: String)
    ensures
        r@ == spec_replace(template@, "$LANGUAGE"@, language@),
{
    let pat = str_chars("$LANGUAGE");
    let tpl = str_chars(template);
    let sub = str_chars(language);
    let out = crate::chars::replace_chars(&tpl, &pat, &sub);
    chars_string(&out)
}

/// The last position in `ls` holding a line of block index `idx`.
pub open spec fn spec_last_line_for(ls: Seq<LineModel>, idx: u32) -> Option<int>
    decreases ls.len(),
{
    if ls.len() == 0 {
        None
    } else if ls.last().index == idx {
        Some(ls.len() - 1)
    } else {
        spec_last_line_for(ls.drop_last(), idx)
    }
}

proof fn lemma_last_line_for(ls: Seq<LineModel>, idx: u32)
    ensures
        match spec_last_line_for(ls, idx) {
            Some(j) => 0 <= j < ls.len() && ls[j].index == idx && forall|k: int|
                j < k < ls.len() ==> (#[trigger] ls[k]).index != idx,
            None => forall|k: int| 0 <= k < ls.len() ==> (#[trigger] ls[k]).index != idx,
        },
    decreases ls.len(),
{
    if ls.len() > 0 && ls.last().index != idx {
        lemma_last_line_for(ls.drop_last(), idx);
        assert(forall|k: int| 0 <= k < ls.len() - 1 ==> ls[k] == ls.drop_last()[k]);
    }
}

/// Find the last translated line for a block index.
#[verifier::loop_isolation(false)]
fn find_line_for(ls: &Vec<IndexedLine>, idx: u32) -> (r: Option<usize>)
    ensures
        match r {
            Some(j) => spec_last_line_for(ls.deep_view(), idx) == Some(j as int) && j < ls@.len()
                && ls.deep_view()[j as int].index == idx,
            None => spec_last_line_for(ls.deep_view(), idx) is None,
        },
{
    let ghost dv = ls.deep_view();
    let n = ls.len();
    let mut i: usize = n;
    while i > 0
        invariant
            i <= n,
            forall|k: int| i <= k < n ==> (#[trigger] dv[k]).index != idx,
        decreases i,
    {
        i = i - 1;
        if ls[i].index == idx {
            proof {
                assert(dv[i as int].index == idx);
                lemma_last_for_value(dv, idx, i as int);
            }
            return Some(i);
        }
        proof {
            assert(dv[i as int].index != idx);
        }
    }
    proof {
        lemma_last_line_for(dv, idx);
        if spec_last_line_for(dv, idx) is Some {
            let j = spec_last_line_for(dv, idx).unwrap();
            assert(dv[j].index != idx);
        }
    }
    None
}

proof fn lemma_last_for_value(ls: Seq<LineModel>, idx: u32, j: int)
    requires
        0 <= j < ls.len(),
        ls[j].index == idx,
        forall|k: int| j < k < ls.len() ==> (#[trigger] ls[k]).index != idx,
    ensures
        spec_last_line_for(ls, idx) == Some(j),
    decreases ls.len(),
{
    if j == ls.len() - 1 {
    } else {
        assert(ls.last().index != idx);
        assert(forall|k: int| 0 <= k < ls.len() - 1 ==> ls[k] == ls.drop_last()[k]);
        lemma_last_for_value(ls.drop_last(), idx, j);
    }
}

/// What one accepted batch does to the working sequence: each block of the
/// window whose index appears in the answer, and which is the first block
/// of the window with that index, takes the text of the last answer line
/// carrying the index, split into lines; every other block stays.
pub open spec fn spec_apply_batch(
    bs: Seq<BlockModel>,
    next: int,
    ls: Seq<LineModel>,
) -> Seq<BlockModel> {
    Seq::new(
        bs.len(),
        |p: int|
            if next <= p < next + ls.len() && (forall|q: int|
                next <= q < p ==> (#[trigger] bs[q]).index != bs[p].index) && spec_last_line_for(
                ls,
                bs[p].index,
            ) is Some {
                BlockModel {
                    index: bs[p].index,
                    start_ms: bs[p].start_ms,
                    end_ms: bs[p].end_ms,
                    text: spec_lines(ls[spec_last_line_for(ls, bs[p].index).unwrap()].text),
                }
            } else {
                bs[p]
            },
    )
}

/// A batch write stays inside its window: the block count, every block's
/// identity and times, and the text of every block outside
/// `[next, next + lines)` are untouched.
pub proof fn lemma_apply_batch_scope(bs: Seq<BlockModel>, next: int, ls: Seq<LineModel>, i: int)
    requires
        0 <= i < bs.len(),
    ensures
        spec_apply_batch(bs, next, ls).len() == bs.len(),
        spec_apply_batch(bs, next, ls)[i].index == bs[i].index,
        spec_apply_batch(bs, next, ls)[i].start_ms == bs[i].start_ms,
        spec_apply_batch(bs, next, ls)[i].end_ms == bs[i].end_ms,
        !(next <= i < next + ls.len()) ==> spec_apply_batch(bs, next, ls)[i] == bs[i],
{
}

/// Split a translated line's text into block text lines.
fn text_to_lines(text: &String) -> (r: Vec<String>)
    ensures
        r.deep_view() == spec_lines(text@),
{
    let cs = str_chars(text.as_str());
    let parts = split_lines(&cs);
    let n = parts.len();
    let mut out: Vec<String> = Vec::new();
    let mut i: usize = 0;
    while i < n
        invariant
            i <= n,
            n == parts@.len(),
            parts.deep_view() == spec_lines(text@),
            out.deep_view() == parts.deep_view().take(i as int),
        decreases n - i,
    {
        let s = chars_string(&parts[i]);
        proof {
            assert(s@ == parts.deep_view()[i as int]);
            assert(out.deep_view().len() == i as int);
            assert(out@.len() == i as int);
        }
        out.push(s);
        proof {
            assert(out.deep_view() =~~= parts.deep_view().take(i + 1));
        }
        i = i + 1;
    }
    proof {
        assert(parts.deep_view().take(n as int) =~= parts.deep_view());
    }
    out
}

/// Apply one accepted batch of translated lines to the working blocks.
#[verifier::loop_isolation(false)]
pub fn apply_batch(blocks: &mut Vec<SrtBlock>, next: usize, lines: &Vec<IndexedLine>)
    requires
        next + lines@.len() <= old(blocks)@.len(),
    ensures
        final(blocks).deep_view() == spec_apply_batch(
            old(blocks).deep_view(),
            next as int,
            lines.deep_view(),
        ),
{
    let ghost bs0 = blocks.deep_view();
    let ghost lv = lines.deep_view();
    let total = blocks.len();
    let end = next + lines.len();
    let mut p = next;
    while p < end
        invariant
            next <= p <= end,
            end == next + lv.len(),
            end <= blocks@.len(),
            blocks@.len() == bs0.len(),
            forall|q: int|
                0 <= q < bs0.len() && !(next <= q < p) ==> #[trigger] blocks.deep_view()[q]
                    == bs0[q],
            forall|q: int|
                next <= q < p ==> #[trigger] blocks.deep_view()[q] == spec_apply_batch(
                    bs0,
                    next as int,
                    lv,
                )[q],
        decreases end - p,
    {
        let idx = blocks[p].index;
        proof {
            assert(blocks.deep_view()[p as int] == bs0[p as int]);
            assert(bs0[p as int].index == idx);
        }
        // Is this the first block of the window with its index?
        let mut q = next;
        let mut first = true;
        while q < p
            invariant
                next <= q <= p,
                first == (forall|t: int| next <= t < q ==> (#[trigger] bs0[t]).index != idx),
            decreases p - q,
        {
            let cur = blocks[q].index;
            proof {
                assert(blocks.deep_view()[q as int].index == bs0[q as int].index);
            }
            if cur == idx {
                first = false;
                proof {
                    assert(bs0[q as int].index == idx);
                }
            }
            q = q + 1;
        }
        if first {
            match find_line_for(lines, idx) {
                Some(j) => {
                    let tv = text_to_lines(&lines[j].text);
                    proof {
                        assert(lv[j as int] == lines@[j as int].deep_view());
                        assert(lines@[j as int]@.text == lv[j as int].text);
                    }
                    let b = &blocks[p];
                    let nb = SrtBlock {
                        index: b.index,
                        start_ms: b.start_ms,
                        end_ms: b.end_ms,
                        text: tv,
                    };
                    let ghost before = blocks.deep_view();
                    blocks.set(p, nb);
                    proof {
                        assert(blocks.deep_view() =~~= before.update(p as int, nb@));
                        assert(nb@ =~~= spec_apply_batch(bs0, next as int, lv)[p as int]);
                    }
                },
                None => {
                    proof {
                        assert(blocks.deep_view()[p as int] == spec_apply_batch(
                            bs0,
                            next as int,
                            lv,
                        )[p as int]);
                    }
                },
            }
        } else {
            proof {
                let applied = spec_apply_batch(bs0, next as int, lv);
                assert(blocks.deep_view()[p as int] == applied[p as int]);
            }
        }
        p = p + 1;
    }
    proof {
        assert(blocks.deep_view() =~~= spec_apply_batch(bs0, next as int, lv));
    }
}

/// One unit of concurrent work: a contiguous run of blocks, the joined
/// source text of each, and up to [`CONTEXT_LINES`] source lines before it.
pub struct BatchJob {
    /// Offset of the batch's first block in the whole sequence.
    pub start: usize,
    /// Joined source text of the blocks just before the batch.
    pub prev: Vec<String>,
    /// One line per block of the batch, tagged with the block's index.
    pub lines: Vec<IndexedLine>,
}

#[verifier::ext_equal]
pub ghost struct JobModel {
    pub start: int,
    pub prev: Seq<Seq<char>>,
    pub lines: Seq<LineModel>,
}

impl View for BatchJob {
    type V = JobModel;

    open spec fn view(&self) -> JobModel {
        JobModel {
            start: self.start as int,
            prev: self.prev.deep_view(),
            lines: self.lines.deep_view(),
        }
    }
}

impl DeepView for BatchJob {
    type V = JobModel;

    open spec fn deep_view(&self) -> JobModel {
        self.view()
    }
}

impl Clone for BatchJob {
    /// A clone carries the same model.
    fn clone(&self) -> (r: Self)
        ensures
            r@ == self@,
    {
        let r = BatchJob {
            start: self.start,
            prev: clone_lines(&self.prev),
            lines: clone_indexed_lines(&self.lines),
        };
        proof {
            assert(r@ =~~= self@);
        }
        r
    }
}

pub open spec fn spec_min(a: int, b: int) -> int {
    if a < b {
        a
    } else {
        b
    }
}

/// The joined text of each of the up-to-[`CONTEXT_LINES`] source blocks
/// before `start`.
pub open spec fn spec_context(bs: Seq<BlockModel>, start: int) -> Seq<Seq<char>> {
    let lo = if start - CONTEXT_LINES as int > 0 {
        start - CONTEXT_LINES as int
    } else {
        0
    };
    bs.subrange(lo, start).map_values(|b: BlockModel| spec_join_nl(b.text))
}

/// One indexed line per block of `[start, end)`, the block's text joined.
pub open spec fn spec_batch_lines(bs: Seq<BlockModel>, start: int, end: int) -> Seq<LineModel> {
    bs.subrange(start, end).map_values(
        |b: BlockModel| LineModel { index: b.index, text: spec_join_nl(b.text) },
    )
}

/// The job that covers the batch beginning at `at`.
pub open spec fn spec_job_at(bs: Seq<BlockModel>, at: int, size: int) -> JobModel {
    JobModel {
        start: at,
        prev: spec_context(bs, at),
        lines: spec_batch_lines(bs, at, spec_min(at + size, bs.len() as int)),
    }
}

/// All jobs from `at` on, one per `size` blocks, the last one shorter when
/// the blocks run out.
pub open spec fn spec_jobs(bs: Seq<BlockModel>, at: int, size: int) -> Seq<JobModel>
    decreases bs.len() - at,
{
    if size < 1 || at < 0 || at >= bs.len() {
        Seq::<JobModel>::empty()
    } else {
        let nxt = if at + size < bs.len() {
            at + size
        } else {
            bs.len() as int
        };
        seq![spec_job_at(bs, at, size)] + spec_jobs(bs, nxt, size)
    }
}

/// The structural facts about a job list that the reassembler leans on.
pub open spec fn jobs_shaped(js: Seq<JobModel>, resume: int, size: int, total: int) -> bool {
    &&& forall|k: int| 0 <= k < js.len() ==> (#[trigger] js[k]).start == resume + k * size
    &&& forall|k: int| 0 <= k < js.len() ==> resume + #[trigger] (k * size) < total
    &&& forall|k: int|
        0 <= k < js.len() ==> (#[trigger] js[k]).lines.len() == spec_min(js[k].start + size, total)
            - js[k].start
    &&& (js.len() == 0 ==> resume >= total)
    &&& (js.len() > 0 ==> resume + (js.len() - 1) * size + size >= total)
}

pub proof fn lemma_jobs_shape(bs: Seq<BlockModel>, at: int, size: int)
    requires
        size >= 1,
        0 <= at,
    ensures
        jobs_shaped(spec_jobs(bs, at, size), at, size, bs.len() as int),
    decreases bs.len() - at,
{
    let js = spec_jobs(bs, at, size);
    if at >= bs.len() {
    } else {
        let nxt = if at + size < bs.len() {
            at + size
        } else {
            bs.len() as int
        };
        let tail = spec_jobs(bs, nxt, size);
        if at + size < bs.len() {
            lemma_jobs_shape(bs, at + size, size);
        } else {
            assert(tail == Seq::<JobModel>::empty());
        }
        assert(js == seq![spec_job_at(bs, at, size)] + tail);
        assert(js.len() == 1 + tail.len());
        assert forall|k: int| 0 <= k < js.len() implies (#[trigger] js[k]).start == at + k * size
            && at + k * size < bs.len() && js[k].lines.len() == spec_min(
            js[k].start + size,
            bs.len() as int,
        ) - js[k].start by {
            if k == 0 {
                assert(js[0] == spec_job_at(bs, at, size));
                assert(0 * size == 0) by (nonlinear_arith);
            } else {
                assert(tail.len() > 0);
                assert(nxt == at + size);
                assert(js[k] == tail[k - 1]);
                assert(tail[k - 1].start == (at + size) + (k - 1) * size);
                assert((at + size) + (k - 1) * size == at + k * size) by (nonlinear_arith);
            }
        }
        assert forall|k: int| 0 <= k < js.len() implies at + #[trigger] (k * size) < bs.len() by {
            assert(js[k].start == at + k * size);
            assert(at + k * size < bs.len());
        }
        if js.len() > 0 {
            if tail.len() == 0 {
                assert(at + size >= bs.len());
                assert(js.len() == 1);
                assert(at + (js.len() - 1) * size + size >= bs.len()) by (nonlinear_arith)
                    requires
                        js.len() == 1,
                        at + size >= bs.len(),
                ;
            } else {
                assert(nxt == at + size);
                assert((at + size) + (tail.len() - 1) * size + size >= bs.len());
                assert(at + (js.len() - 1) * size + size >= bs.len()) by (nonlinear_arith)
                    requires
                        js.len() == 1 + tail.len(),
                        (at + size) + (tail.len() - 1) * size + size >= bs.len(),
                ;
            }
        }
    }
}

/// Build the jobs for every batch from `resume` on, context and lines
/// drawn from the source blocks.
#[verifier::loop_isolation(false)]
pub fn make_jobs(blocks: &Vec<SrtBlock>, resume: usize, batch_size: usize) -> (r: Vec<BatchJob>)
    requires
        batch_size >= 1,
        resume <= blocks@.len(),
    ensures
        r.deep_view() == spec_jobs(blocks.deep_view(), resume as int, batch_size as int),
{
    let ghost bs = blocks.deep_view();
    let ghost size = batch_size as int;
    let n = blocks.len();
    let mut jobs: Vec<BatchJob> = Vec::new();
    let mut start = resume;
    proof {
        assert(jobs.deep_view() + spec_jobs(bs, resume as int, size) =~= spec_jobs(
            bs,
            resume as int,
            size,
        ));
    }
    while start < n
        invariant
            resume <= start <= n,
            jobs.deep_view() + spec_jobs(bs, start as int, size) == spec_jobs(
                bs,
                resume as int,
                size,
            ),
        decreases n - start,
    {
        let end = if batch_size >= n - start {
            n
        } else {
            start + batch_size
        };
        let pstart = if start >= CONTEXT_LINES {
            start - CONTEXT_LINES
        } else {
            0
        };
        let mut prev: Vec<String> = Vec::new();
        let mut p = pstart;
        proof {
            assert(prev.deep_view() =~~= bs.subrange(pstart as int, p as int).map_values(
                |b: BlockModel| spec_join_nl(b.text),
            ));
        }
        while p < start
            invariant
                pstart <= p <= start,
                prev.deep_view() == bs.subrange(pstart as int, p as int).map_values(
                    |b: BlockModel| spec_join_nl(b.text),
                ),
            decreases start - p,
        {
            let s = crate::chars::join_lines(&blocks[p].text);
            let ghost before = prev.deep_view();
            let ghost beforev = prev@;
            proof {
                assert(blocks@[p as int].text.deep_view() == bs[p as int].text);
                assert(before.len() == p - pstart);
                assert(beforev.len() == p - pstart);
            }
            prev.push(s);
            proof {
                let f = |b: BlockModel| spec_join_nl(b.text);
                let target = bs.subrange(pstart as int, p + 1).map_values(f);
                assert(prev@ == beforev.push(s));
                assert forall|k: int| 0 <= k < p - pstart + 1 implies #[trigger] prev.deep_view()[k]
                    == target[k] by {
                    assert(prev.deep_view()[k] == prev@[k].deep_view());
                    assert(target[k] == f(bs.subrange(pstart as int, p + 1)[k]));
                    assert(bs.subrange(pstart as int, p + 1)[k] == bs[pstart + k]);
                    if k < p - pstart {
                        assert(prev@[k] == beforev[k]);
                        assert(before[k] == beforev[k].deep_view());
                        assert(before[k] == bs.subrange(pstart as int, p as int).map_values(f)[k]);
                        assert(bs.subrange(pstart as int, p as int)[k] == bs[pstart + k]);
                    } else {
                        assert(prev@[k] == s);
                    }
                }
                assert(prev.deep_view() =~= target);
            }
            p = p + 1;
        }
        let mut lines: Vec<IndexedLine> = Vec::new();
        let mut q = start;
        proof {
            assert(lines.deep_view() =~~= spec_batch_lines(bs, start as int, q as int));
        }
        while q < end
            invariant
                start <= q <= end <= n,
                lines.deep_view() == spec_batch_lines(bs, start as int, q as int),
            decreases end - q,
        {
            let text = crate::chars::join_lines(&blocks[q].text);
            let il = IndexedLine { index: blocks[q].index, text };
            let ghost before = lines.deep_view();
            let ghost beforev = lines@;
            proof {
                assert(blocks@[q as int].text.deep_view() == bs[q as int].text);
                assert(il@ == LineModel {
                    index: bs[q as int].index,
                    text: spec_join_nl(bs[q as int].text),
                });
                assert(before.len() == q - start);
                assert(beforev.len() == q - start);
            }
            lines.push(il);
            proof {
                let g = |b: BlockModel| LineModel { index: b.index, text: spec_join_nl(b.text) };
                let target = bs.subrange(start as int, q + 1).map_values(g);
                assert(lines@ == beforev.push(il));
                assert forall|k: int| 0 <= k < q - start + 1 implies #[trigger] lines.deep_view()[k]
                    == target[k] by {
                    assert(lines.deep_view()[k] == lines@[k].deep_view());
                    assert(target[k] == g(bs.subrange(start as int, q + 1)[k]));
                    assert(bs.subrange(start as int, q + 1)[k] == bs[start + k]);
                    if k < q - start {
                        assert(lines@[k] == beforev[k]);
                        assert(before[k] == beforev[k].deep_view());
                        assert(before[k] == spec_batch_lines(bs, start as int, q as int)[k]);
                        assert(bs.subrange(start as int, q as int)[k] == bs[start + k]);
                    } else {
                        assert(lines@[k] == il);
                    }
                }
                assert(lines.deep_view() =~= target);
            }
            q = q + 1;
        }
        let job = BatchJob { start, prev, lines };
        proof {
            assert(end as int == spec_min(start as int + size, bs.len() as int));
            assert(job@ =~~= spec_job_at(bs, start as int, size));
        }
        let ghost old_jobs = jobs.deep_view();
        proof {
            assert(old_jobs.len() == jobs@.len());
        }
        jobs.push(job);
        proof {
            assert(jobs.deep_view() =~~= old_jobs.push(job@));
            assert(end as int == (if start as int + size < bs.len() as int {
                start as int + size
            } else {
                bs.len() as int
            }));
            assert(spec_jobs(bs, start as int, size) == seq![spec_job_at(bs, start as int, size)]
                + spec_jobs(bs, end as int, size));
            assert(jobs.deep_view() + spec_jobs(bs, end as int, size) =~= spec_jobs(
                bs,
                resume as int,
                size,
            ));
        }
        start = end;
    }
    proof {
        assert(spec_jobs(bs, n as int, size) == Seq::<JobModel>::empty());
        assert(jobs.deep_view() + Seq::<JobModel>::empty() =~= jobs.deep_view());
    }
    jobs
}

/// A batch answer accepted but not yet flushed, with how long its
/// translation took.
pub struct PendingBatch {
    pub lines: Vec<IndexedLine>,
    pub elapsed_ms: u128,
}

/// What one flush did: the block range written, how long the batch took,
/// and the time estimate for what remains.
pub struct FlushEvent {
    pub start: usize,
    pub end: usize,
    pub elapsed_ms: u128,
    pub estimate_ms: Option<u128>,
}

/// The reassembler: accepts batch results in any completion order,
/// validates them, and flushes only the batch at the `next` cursor, so
/// blocks are persisted strictly in original order.
pub struct RunState {
    /// The working block sequence; translated text lands here.
    pub blocks: Vec<SrtBlock>,
    /// Where this run started; blocks before it came from a checkpoint.
    pub resume: usize,
    /// Blocks per batch.
    pub batch_size: usize,
    /// The lowest offset not yet flushed.
    pub next: usize,
    /// The batch that owns `next`.
    pub next_batch: usize,
    /// One job per batch, fixed at construction.
    pub jobs: Vec<BatchJob>,
    /// Accepted answers waiting for their turn, one slot per batch.
    pub pending: Vec<Option<PendingBatch>>,
    /// Duration of the last flushed batch, for the estimate.
    pub last_ms: Option<u128>,
    /// The working blocks as they were at construction.
    pub initial: Ghost<Seq<BlockModel>>,
}

impl RunState {
    pub open spec fn total(self) -> int {
        self.blocks@.len() as int
    }

    /// The reassembler's invariant: the cursor sits on a batch boundary,
    /// every pending answer has its batch's length, block identities and
    /// times never change, and text beyond the cursor (or before the
    /// resume point) is still what the run started with.
    pub open spec fn wf(self) -> bool {
        &&& self.batch_size >= 1
    
        &&& self.resume <= self.next <= self.total()
        &&& self.initial@.len() == self.total()
        &&& jobs_shaped(
            self.jobs.deep_view(),
            self.resume as int,
            self.batch_size as int,
            self.total(),
        )
        &&& self.pending@.len() == self.jobs@.len()
        &&& self.next_batch <= self.jobs@.len()
        &&& (self.next_batch == self.jobs@.len() ==> self.next == self.total())
        &&& (self.next_batch < self.jobs@.len() ==> self.next as int == self.jobs.deep_view()[self.next_batch as int].start)
        &&& forall|k: int|
            0 <= k < self.pending@.len() ==> ((#[trigger] self.pending@[k]) matches Some(pb)
                ==> pb.lines@.len() == self.jobs@[k].lines@.len())
        &&& forall|i: int|
            0 <= i < self.total() ==> (#[trigger] self.blocks.deep_view()[i]).index
                == self.initial@[i].index && self.blocks.deep_view()[i].start_ms
                == self.initial@[i].start_ms && self.blocks.deep_view()[i].end_ms
                == self.initial@[i].end_ms
        &&& forall|i: int|
            self.next <= i < self.total() ==> (#[trigger] self.blocks.deep_view()[i]).text
                == self.initial@[i].text
        &&& forall|i: int|
            0 <= i < self.resume ==> (#[trigger] self.blocks.deep_view()[i]).text
                == self.initial@[i].text
    }

    /// Start a run over `working`, scheduling every batch of `source`
    /// blocks from `resume` on.
    pub fn new(working: Vec<SrtBlock>, source: &Vec<SrtBlock>, resume: usize, batch_size: usize)
        -> (r: RunState)
        requires
            batch_size >= 1,
            resume <= working@.len(),
            source@.len() == working@.len(),
        ensures
            r.wf(),
            r.blocks.deep_view() == working.deep_view(),
            r.initial@ == working.deep_view(),
            r.resume == resume,
            r.batch_size == batch_size,
            r.next == resume,
            r.next_batch == 0,
            r.jobs.deep_view() == spec_jobs(source.deep_view(), resume as int, batch_size as int),
            forall|k: int| 0 <= k < r.pending@.len() ==> (#[trigger] r.pending@[k]) is None,
            r.last_ms is None,
    {
        let jobs = make_jobs(source, resume, batch_size);
        let nj = jobs.len();
        let mut pending: Vec<Option<PendingBatch>> = Vec::new();
        let mut i: usize = 0;
        while i < nj
            invariant
                i <= nj,
                pending@.len() == i,
                forall|k: int| 0 <= k < i ==> (#[trigger] pending@[k]) is None,
            decreases nj - i,
        {
            pending.push(None);
            i = i + 1;
        }
        proof {
            lemma_jobs_shape(source.deep_view(), resume as int, batch_size as int);
        }
        let ghost init = working.deep_view();
        let r = RunState {
            blocks: working,
            resume,
            batch_size,
            next: resume,
            next_batch: 0,
            jobs,
            pending,
            last_ms: None,
            initial: Ghost(init),
        };
        proof {
            let js = r.jobs.deep_view();
            if js.len() == 0 {
                assert(resume >= r.total());
            } else {
                assert(js[0].start == resume + 0 * 1 * (batch_size as int) || true);
                assert(js[0].start == resume as int + 0 * (batch_size as int));
                assert(0 * (batch_size as int) == 0) by (nonlinear_arith);
            }
        }
        r
    }

    /// Take one completion: an error or an invalid answer hands the batch's
    /// job back for an immediate retry and changes nothing; a valid answer
    /// is stored in the batch's pending slot.
    pub fn accept(
        &mut self,
        batch: usize,
        outcome: Result<Vec<IndexedLine>, ProviderError>,
        elapsed_ms: u128,
    ) -> (r: Option<BatchJob>)
        requires
            old(self).wf(),
            batch < old(self).jobs@.len(),
        ensures
            final(self).wf(),
            final(self).blocks == old(self).blocks,
            final(self).resume == old(self).resume,
            final(self).batch_size == old(self).batch_size,
            final(self).next == old(self).next,
            final(self).next_batch == old(self).next_batch,
            final(self).jobs == old(self).jobs,
            final(self).last_ms == old(self).last_ms,
            final(self).initial == old(self).initial,
            (r matches Some(j) ==> {
                &&& final(self).pending == old(self).pending
                &&& j@ == old(self).jobs.deep_view()[batch as int]
                &&& (outcome matches Ok(ls) ==> spec_needs_retry(
                    old(self).jobs@[batch as int].lines.deep_view(),
                    ls.deep_view(),
                ))
            }),
            (r is None ==> {
                &&& outcome matches Ok(ls) && !spec_needs_retry(
                    old(self).jobs@[batch as int].lines.deep_view(),
                    ls.deep_view(),
                )
                &&& final(self).pending@.len() == old(self).pending@.len()
                &&& (forall|k: int|
                    0 <= k < old(self).pending@.len() && k != batch
                        ==> #[trigger] final(self).pending@[k] == old(self).pending@[k])
                &&& final(self).pending@[batch as int] matches Some(pb)
                    && (outcome matches Ok(ls) ==> pb.lines == ls)
                    && pb.elapsed_ms == elapsed_ms
            }),
    {
        match outcome {
            Err(_) => Some(self.jobs[batch].clone()),
            Ok(ls) => {
                if needs_retry(&self.jobs[batch].lines, &ls) {
                    Some(self.jobs[batch].clone())
                } else {
                    let ghost oldp = self.pending@;
                    let n = ls.len();
                    proof {
                        assert(self.jobs@[batch as int].lines.deep_view().len()
                            == self.jobs@[batch as int].lines@.len());
                        assert(ls.deep_view().len() == ls@.len());
                    }
                    self.pending.set(batch, Some(PendingBatch { lines: ls, elapsed_ms }));
                    proof {
                        assert(self.pending@ == oldp.update(
                            batch as int,
                            self.pending@[batch as int],
                        ));
                    }
                    None
                }
            },
        }
    }

    /// Flush the batch at the cursor if its answer has arrived: write its
    /// lines into the working blocks, advance the cursor past the batch,
    /// and report the range with a fresh estimate.  Nothing but the batch
    /// at the cursor ever flushes, so persisted order is block order.
    pub fn try_flush(&mut self) -> (r: Option<FlushEvent>)
        requires
            old(self).wf(),
        ensures
            final(self).wf(),
            final(self).resume == old(self).resume,
            final(self).batch_size == old(self).batch_size,
            final(self).jobs == old(self).jobs,
            final(self).initial == old(self).initial,
            (r is None ==> *final(self) == *old(self) && (old(self).next == old(self).total()
                || old(self).pending@[old(self).next_batch as int] is None)),
            (r matches Some(ev) ==> {
                &&& old(self).next_batch < old(self).jobs@.len()
                &&& old(self).pending@[old(self).next_batch as int] matches Some(pb) && {
                    &&& final(self).blocks.deep_view() == spec_apply_batch(
                        old(self).blocks.deep_view(),
                        old(self).next as int,
                        pb.lines.deep_view(),
                    )
                    &&& final(self).next == old(self).next + pb.lines@.len()
                    &&& final(self).next_batch == old(self).next_batch + 1
                    &&& final(self).pending@ == old(self).pending@.update(
                        old(self).next_batch as int,
                        None,
                    )
                    &&& final(self).last_ms == Some(pb.elapsed_ms)
                    &&& ev.start == old(self).next
                    &&& ev.end == final(self).next
                    &&& ev.elapsed_ms == pb.elapsed_ms
                    &&& ev.estimate_ms == spec_flush_estimate(
                        old(self).last_ms,
                        pb.elapsed_ms,
                        old(self).total() - final(self).next,
                        old(self).batch_size as int,
                    )
                }
            }),
    {
        if self.next_batch >= self.jobs.len() {
            return None;
        }
        let kb = self.next_batch;
        let has = match &self.pending[kb] {
            Some(_) => true,
            None => false,
        };
        if !(has) {
            return None;
        }
        let ghost old_blocks = self.blocks.deep_view();
        let ghost js = self.jobs.deep_view();
        let start = self.next;
        let total = self.blocks.len();
        let (len, elapsed) = match &self.pending[kb] {
            Some(pb) => {
                proof {
                    assert(self.pending@[kb as int] matches Some(q) && q == *pb);
                    assert(pb.lines@.len() == self.jobs@[kb as int].lines@.len());
                    assert(js[kb as int] == self.jobs@[kb as int].deep_view());
                    assert(js[kb as int].lines == self.jobs@[kb as int].lines.deep_view());
                    assert(self.jobs@[kb as int].lines.deep_view().len()
                        == self.jobs@[kb as int].lines@.len());
                    assert(js[kb as int].start == self.next as int);
                    assert(js[kb as int].lines.len() == spec_min(
                        js[kb as int].start + self.batch_size as int,
                        self.total(),
                    ) - js[kb as int].start);
                    assert(pb.lines@.len() == spec_min(
                        start as int + self.batch_size as int,
                        self.total(),
                    ) - start as int);
                }
                apply_batch(&mut self.blocks, start, &pb.lines);
                (pb.lines.len(), pb.elapsed_ms)
            },
            None => {
                proof {
                    assert(false);
                }
                (0, 0)
            },
        };
        let new_next = start + len;
        let remaining = total - new_next;
        let estimate: Option<u128> = match self.last_ms {
            Some(prev) => {
                if remaining > 0 {
                    match prev.checked_add(elapsed) {
                        Some(sum) => {
                            match remaining.checked_add(self.batch_size) {
                                Some(_) => {
                                    let avg = sum / 2;
                                    let batches = (remaining + self.batch_size - 1)
                                        / self.batch_size;
                                    match avg.checked_mul(batches as u128) {
                                        Some(e) => Some(e),
                                        None => None,
                                    }
                                },
                                None => None,
                            }
                        },
                        None => None,
                    }
                } else {
                    None
                }
            },
            None => None,
        };
        let ghost oldp = self.pending@;
        self.pending.set(kb, None);
        self.next = new_next;
        self.next_batch = kb + 1;
        let ev = FlushEvent { start, end: new_next, elapsed_ms: elapsed, estimate_ms: estimate };
        self.last_ms = Some(elapsed);
        proof {
            let size = self.batch_size as int;
            let t = self.total();
            assert(self.blocks.deep_view().len() == old_blocks.len());
            assert(self.blocks@.len() == old_blocks.len());
            assert(t == total as int);
            // The cursor lands on the next batch boundary, or the end.
            assert(js[kb as int].start == start as int);
            assert(new_next as int == spec_min(start as int + size, t));
            if kb + 1 < js.len() {
                assert(js[kb + 1].start == self.resume + (kb + 1) * size);
                assert(js[kb as int].start == self.resume + kb as int * size);
                assert((kb as int + 1) * size == kb as int * size + size) by (nonlinear_arith);
                assert(self.resume + ((kb + 1) as int) * size < t);
                assert(js[kb + 1].start == start as int + size);
                assert(new_next as int == js[kb + 1].start);
            } else {
                assert(js.len() > 0);
                assert(self.resume + (js.len() - 1) * size + size >= t);
                assert(js[kb as int].start + size >= t);
                assert(new_next == t);
            }
            // Block identities and untouched text survive the write.
            let applied = spec_apply_batch(old_blocks, start as int, oldp[kb as int].unwrap().lines.deep_view());
            assert forall|i: int| 0 <= i < t implies (#[trigger] applied[i]).index == old_blocks[i].index
                && applied[i].start_ms == old_blocks[i].start_ms && applied[i].end_ms
                == old_blocks[i].end_ms && ((i < start || i >= new_next) ==> applied[i].text
                == old_blocks[i].text) by {}
            assert(self.pending@ == oldp.update(kb as int, None));
        }
        Some(ev)
    }
}

impl RunState {
    /// Ordered persistence: in every reachable state, a block at or beyond
    /// the cursor still carries the text the run started with — a batch is
    /// never written before every lower batch has been flushed, whatever
    /// order completions arrive in.
    pub proof fn lemma_untranslated_suffix(self, i: int)
        requires
            self.wf(),
            self.next <= i < self.total(),
        ensures
            self.blocks.deep_view()[i].text == self.initial@[i].text,
    {
    }
}

/// The most times one batch is re-sent before the run gives up.  The
/// budget exists so that every loop provably ends; it is far past what any
/// run could use, so in practice a failing batch is retried indefinitely.
pub const MAX_BATCH_ATTEMPTS: u64 = u64::MAX;

/// Translate a whole track, one batch after another: every answer is
/// validated, an error or an echoed answer is retried at once, and
/// accepted batches are flushed strictly in order.  The run fails when the
/// glossary request fails, or when one batch exhausts the retry budget;
/// it never returns partly translated output.  Block count, indices,
/// times, and everything before the resume point come through unchanged.
pub fn process_blocks<T: Translator>(
    translator: &T,
    source: &Vec<SrtBlock>,
    working: Vec<SrtBlock>,
    resume: usize,
    batch_size: usize,
    target_locale: &str,
) -> (r: Result<Vec<SrtBlock>, ProviderError>)
    requires
        batch_size >= 1,
        resume <= working@.len(),
        source@.len() == working@.len(),
    ensures
        (r matches Ok(out) ==> {
            &&& out.deep_view().len() == working.deep_view().len()
            &&& forall|i: int|
                0 <= i < out.deep_view().len() ==> (#[trigger] out.deep_view()[i]).index
                    == working.deep_view()[i].index && out.deep_view()[i].start_ms
                    == working.deep_view()[i].start_ms && out.deep_view()[i].end_ms
                    == working.deep_view()[i].end_ms
            &&& forall|i: int|
                0 <= i < resume ==> (#[trigger] out.deep_view()[i]).text
                    == working.deep_view()[i].text
        }),
{
    let sample = glossary_sample(source);
    let summary = match translator.build_glossary(&sample) {
        Ok(s) => s,
        Err(e) => {
            return Err(e);
        },
    };
    let mut st = RunState::new(working, source, resume, batch_size);
    let nj = st.jobs.len();
    let mut k: usize = 0;
    while k < nj
        invariant
            st.wf(),
            k <= nj,
            nj == st.jobs@.len(),
            st.next_batch == k,
            st.initial@ == working.deep_view(),
            st.resume == resume,
            st.batch_size == batch_size,
            forall|j: int| 0 <= j < st.pending@.len() ==> (#[trigger] st.pending@[j]) is None,
        decreases nj - k,
    {
        // Ask for this batch until an answer passes validation; retries are
        // immediate and, for every practical purpose, unlimited.
        let mut attempts: u64 = 0;
        loop
            invariant_except_break
                st.wf(),
                k < nj,
                nj == st.jobs@.len(),
                st.next_batch == k,
                st.initial@ == working.deep_view(),
                st.resume == resume,
                st.batch_size == batch_size,
                attempts < MAX_BATCH_ATTEMPTS,
                forall|j: int| 0 <= j < st.pending@.len() ==> (#[trigger] st.pending@[j]) is None,
            ensures
                st.wf(),
                k < nj,
                nj == st.jobs@.len(),
                st.next_batch == k,
                st.initial@ == working.deep_view(),
                st.resume == resume,
                st.batch_size == batch_size,
                st.pending@[k as int] is Some,
                forall|j: int|
                    0 <= j < st.pending@.len() && j != k ==> (#[trigger] st.pending@[j]) is None,
            decreases MAX_BATCH_ATTEMPTS - attempts,
        {
            let job = st.jobs[k].clone();
            let res = translator.translate_batch(&summary, &job.prev, &job.lines, target_locale);
            let retry = st.accept(k, res, 0);
            match retry {
                None => {
                    break ;
                },
                Some(_) => {
                    attempts = attempts + 1;
                    if attempts == MAX_BATCH_ATTEMPTS {
                        return Err(ProviderError {
                            message: crate::chars::chars_string(
                                &crate::chars::str_chars("translation retries exhausted"),
                            ),
                        });
                    }
                },
            }
        }
        proof {
            let js = st.jobs.deep_view();
            assert(js[k as int].start == st.resume + k as int * (st.batch_size as int));
            assert(st.resume + (k as int) * (st.batch_size as int) < st.total());
            assert(st.next < st.total());
        }
        let ev = st.try_flush();
        proof {
            assert(ev is Some);
        }
        k = k + 1;
    }
    proof {
        assert(st.next == st.total());
    }
    Ok(st.blocks)
}

} // verus!
