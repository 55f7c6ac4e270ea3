//! Choosing a subtitle stream out of a probed media file and building the
//! extraction command's arguments.  Running the external tools is the
//! caller's business; the choice and the arguments are computed here.

use crate::chars::{
    ascii_caseless_eq, chars_string, contains_sub, push_dec, push_range, spec_ascii_caseless_eq,
    spec_contains, spec_dec, str_chars,
};
use crate::paths::{sibling_with_suffix, spec_dir, spec_file_stem};
use vstd::prelude::*;

verus! {

/// The language and title tags of a probed subtitle stream; either may be
/// missing.
pub struct Tags {
    pub language: Option<String>,
    pub title: Option<String>,
}

/// One subtitle stream as the probe reports it.
pub struct Stream {
    pub tags: Tags,
}

/// What `str::to_lowercase` returns for these characters.  The result
/// depends on the characters alone; an empty text stays empty.
pub uninterp spec fn lower_of(s: Seq<char>) -> Seq<char>;

/// Relies on `str::to_lowercase`: the result is a function of the
/// characters alone, and the empty string lowers to itself.
#[verifier::external_body]
fn lowercase(s: &str) -> (r: String)
    ensures
        r@ == lower_of(s@),
        s@.len() == 0 ==> r@.len() == 0,
{
    s.to_lowercase()
}

/// A stream is English when its language tag says `eng`, ASCII case
/// ignored.
pub open spec fn spec_is_english(s: Stream) -> bool {
    match s.tags.language {
        Some(l) => spec_ascii_caseless_eq(l@, "eng"@),
        None => false,
    }
}

/// The lowercased title a stream is scored by; a missing title counts as
/// empty.
pub open spec fn spec_title_lower(s: Stream) -> Seq<char> {
    match s.tags.title {
        Some(t) => lower_of(t@),
        None => Seq::<char>::empty(),
    }
}

/// The score of an English stream: closed-caption markers beat a plain
/// subtitle marker, which beats an unmarked title.
pub open spec fn spec_score(s: Stream) -> int {
    let t = spec_title_lower(s);
    if spec_contains(t, "cc"@) || spec_contains(t, "sdh"@) || spec_contains(t, "caption"@) {
        2
    } else if spec_contains(t, "sub"@) {
        1
    } else {
        0
    }
}

fn is_english(s: &Stream) -> (r: bool)
    ensures
        r == spec_is_english(*s),
{
    match &s.tags.language {
        Some(l) => {
            let lc = str_chars(l.as_str());
            let ec = str_chars("eng");
            ascii_caseless_eq(&lc, &ec)
        },
        None => false,
    }
}

fn stream_score(s: &Stream) -> (r: u32)
    ensures
        r as int == spec_score(*s),
{
    let lowered = match &s.tags.title {
        Some(t) => lowercase(t.as_str()),
        None => lowercase(""),
    };
    proof {
        if s.tags.title is None {
            reveal_strlit("");
            assert(""@.len() == 0);
            assert(lowered@ =~= spec_title_lower(*s));
        }
    }
    let tc = str_chars(lowered.as_str());
    let cc = str_chars("cc");
    let sdh = str_chars("sdh");
    let caption = str_chars("caption");
    let sub = str_chars("sub");
    if contains_sub(&tc, &cc) || contains_sub(&tc, &sdh) || contains_sub(&tc, &caption) {
        2
    } else if contains_sub(&tc, &sub) {
        1
    } else {
        0
    }
}

/// Pick the stream to extract: the earliest English stream of the highest
/// score, or nothing when no stream is English.
#[verifier::loop_isolation(false)]
pub fn best_english_stream(streams: &Vec<Stream>) -> (r: Option<usize>)
    ensures
        (r matches Some(i) ==> i < streams@.len() && spec_is_english(streams@[i as int]) && forall|
            j: int,
        |
            0 <= j < streams@.len() && spec_is_english(#[trigger] streams@[j]) ==> (spec_score(
                streams@[j],
            ) < spec_score(streams@[i as int]) || (spec_score(streams@[j]) == spec_score(
                streams@[i as int],
            ) && i <= j))),
        r is None ==> forall|j: int|
            0 <= j < streams@.len() ==> !spec_is_english(#[trigger] streams@[j]),
{
    let n = streams.len();
    let mut best: Option<(usize, u32)> = None;
    let mut i: usize = 0;
    while i < n
        invariant
            i <= n,
            (match best {
                Some(p) => p.0 < i && spec_is_english(streams@[p.0 as int]) && p.1 as int
                    == spec_score(streams@[p.0 as int]) && forall|j: int|
                    0 <= j < i && spec_is_english(#[trigger] streams@[j]) ==> (spec_score(
                        streams@[j],
                    ) < p.1 as int || (spec_score(streams@[j]) == p.1 as int && p.0 <= j)),
                None => forall|j: int| 0 <= j < i ==> !spec_is_english(#[trigger] streams@[j]),
            }),
        decreases n - i,
    {
        let s = &streams[i];
        if is_english(s) {
            let score = stream_score(s);
            let replace = match best {
                Some(p) => score > p.1,
                None => true,
            };
            if replace {
                best = Some((i, score));
            }
        }
        i = i + 1;
    }
    match best {
        Some(p) => Some(p.0),
        None => None,
    }
}

/// The output path and the argument list of the extraction command: copy
/// subtitle stream `stream_index` of `input` into an SRT file named after
/// the input's stem.
#[verifier::loop_isolation(false)]
pub fn ffmpeg_extract_args(input: &str, stream_index: usize) -> (r: (String, Vec<String>))
    ensures
        r.0@ == spec_dir(input@) + spec_file_stem(input@) + "_en.srt"@,
        r.1.deep_view() =~= seq![
            "-i"@,
            input@,
            "-map"@,
            "0:s:"@ + spec_dec(stream_index as nat),
            "-c:s"@,
            "srt"@,
            r.0@,
        ],
{
    let out = sibling_with_suffix(input, "_en.srt");
    let mut map_arg: Vec<char> = Vec::new();
    let prefix = str_chars("0:s:");
    push_range(&mut map_arg, &prefix, 0, prefix.len());
    push_dec(&mut map_arg, stream_index as u64);
    proof {
        assert(prefix@.subrange(0, prefix@.len() as int) =~= "0:s:"@);
        assert(map_arg@ =~= "0:s:"@ + spec_dec(stream_index as nat));
    }
    let mut args: Vec<String> = Vec::new();
    args.push(string_of("-i"));
    args.push(string_of(input));
    args.push(string_of("-map"));
    args.push(chars_string(&map_arg));
    args.push(string_of("-c:s"));
    args.push(string_of("srt"));
    let out2 = clone_string(&out);
    args.push(out2);
    proof {
        assert(args.deep_view() =~~= seq![
            "-i"@,
            input@,
            "-map"@,
            "0:s:"@ + spec_dec(stream_index as nat),
            "-c:s"@,
            "srt"@,
            out@,
        ]);
    }
    (out, args)
}

/// An owned copy of a borrowed piece of text.
fn string_of(s: &str) -> (r: String)
    ensures
        r@ == s@,
{
    let cs = str_chars(s);
    chars_string(&cs)
}

fn clone_string(s: &String) -> (r: String)
    ensures
        r@ == s@,
{
    s.clone()
}

} // verus!
