//! Path-name arithmetic on plain strings: the directory part, the file
//! stem, the extension, and names derived from a sibling file's stem.
//! A `/` separates components; the callers hand paths over as strings.

use crate::chars::{
    chars_string, push_range, spec_ascii_caseless_eq, ascii_caseless_eq, str_chars,
};
use vstd::prelude::*;

verus! {

/// The last position of `c` in `s`.
pub open spec fn spec_rfind(s: Seq<char>, c: char) -> Option<int>
    decreases s.len(),
{
    if s.len() == 0 {
        None
    } else if s.last() == c {
        Some(s.len() - 1)
    } else {
        spec_rfind(s.drop_last(), c)
    }
}

pub proof fn lemma_rfind_val(s: Seq<char>, c: char, j: int)
    requires
        0 <= j < s.len(),
        s[j] == c,
        forall|k: int| j < k < s.len() ==> s[k] != c,
    ensures
        spec_rfind(s, c) == Some(j),
    decreases s.len(),
{
    if j == s.len() - 1 {
    } else {
        assert(s.last() != c);
        assert(forall|k: int| 0 <= k < s.len() - 1 ==> s[k] == s.drop_last()[k]);
        lemma_rfind_val(s.drop_last(), c, j);
    }
}

pub proof fn lemma_rfind_none(s: Seq<char>, c: char)
    requires
        forall|k: int| 0 <= k < s.len() ==> s[k] != c,
    ensures
        spec_rfind(s, c) is None,
    decreases s.len(),
{
    if s.len() > 0 {
        assert(forall|k: int| 0 <= k < s.len() - 1 ==> s[k] == s.drop_last()[k]);
        lemma_rfind_none(s.drop_last(), c);
    }
}

/// Where the file name begins: right after the last separator.
pub open spec fn spec_name_start(p: Seq<char>) -> int {
    match spec_rfind(p, '/') {
        Some(i) => i + 1,
        None => 0,
    }
}

/// The directory part, up to and including the last separator.
pub open spec fn spec_dir(p: Seq<char>) -> Seq<char> {
    p.take(spec_name_start(p))
}

/// The final component of the path.
pub open spec fn spec_file_name(p: Seq<char>) -> Seq<char> {
    p.skip(spec_name_start(p))
}

/// How much of the file name is its stem: everything before the last dot,
/// unless the only dot starts the name.
pub open spec fn spec_stem_len(name: Seq<char>) -> int {
    match spec_rfind(name, '.') {
        Some(j) => if j > 0 {
            j
        } else {
            name.len() as int
        },
        None => name.len() as int,
    }
}

/// The file name without its extension.
pub open spec fn spec_file_stem(p: Seq<char>) -> Seq<char> {
    spec_file_name(p).take(spec_stem_len(spec_file_name(p)))
}

/// The extension, when the file name has one.
pub open spec fn spec_extension(p: Seq<char>) -> Option<Seq<char>> {
    let name = spec_file_name(p);
    match spec_rfind(name, '.') {
        Some(j) => if j > 0 {
            Some(name.skip(j + 1))
        } else {
            None
        },
        None => None,
    }
}

/// Last position of `c` in `s[lo..hi]`, as a position in `s`.
#[verifier::loop_isolation(false)]
fn rfind_in(s: &Vec<char>, lo: usize, hi: usize, c: char) -> (r: Option<usize>)
    requires
        lo <= hi <= s@.len(),
    ensures
        (r matches Some(j) ==> lo <= j < hi && spec_rfind(s@.subrange(lo as int, hi as int), c)
            == Some(j - lo)),
        r is None ==> spec_rfind(s@.subrange(lo as int, hi as int), c) is None,
{
    let ghost sub = s@.subrange(lo as int, hi as int);
    let mut i = hi;
    while i > lo
        invariant
            lo <= i <= hi,
            forall|k: int| i - lo <= k < hi - lo ==> sub[k] != c,
        decreases i,
    {
        i = i - 1;
        if s[i] == c {
            proof {
                assert(sub[i - lo] == s@[i as int]);
                lemma_rfind_val(sub, c, i - lo);
            }
            return Some(i);
        }
        proof {
            assert(sub[i - lo] == s@[i as int]);
        }
    }
    proof {
        lemma_rfind_none(sub, c);
    }
    None
}

/// The path of a file that sits beside `path` and is named by the stem
/// plus `suffix`.
#[verifier::loop_isolation(false)]
pub fn sibling_with_suffix(path: &str, suffix: &str) -> (r: String)
    ensures
        r@ == spec_dir(path@) + spec_file_stem(path@) + suffix@,
{
    let cs = str_chars(path);
    let n = cs.len();
    proof {
        assert(cs@.subrange(0, n as int) =~= cs@);
    }
    let ns = match rfind_in(&cs, 0, n, '/') {
        Some(i) => i + 1,
        None => 0,
    };
    proof {
        assert(spec_name_start(path@) == ns as int);
        assert(cs@.subrange(ns as int, n as int) =~= spec_file_name(path@));
    }
    let stem_end = match rfind_in(&cs, ns, n, '.') {
        Some(j) => if j > ns {
            j
        } else {
            n
        },
        None => n,
    };
    proof {
        assert(stem_end as int == ns + spec_stem_len(spec_file_name(path@)));
    }
    let mut out: Vec<char> = Vec::new();
    push_range(&mut out, &cs, 0, stem_end);
    let sc = str_chars(suffix);
    push_range(&mut out, &sc, 0, sc.len());
    proof {
        assert(sc@.subrange(0, sc@.len() as int) =~= suffix@);
        assert(cs@.subrange(0, stem_end as int) =~= spec_dir(path@) + spec_file_stem(path@));
        assert(out@ =~= spec_dir(path@) + spec_file_stem(path@) + suffix@);
    }
    chars_string(&out)
}

/// Does the path's extension equal `ext`, ASCII case ignored?
#[verifier::loop_isolation(false)]
pub fn has_extension_ignore_case(path: &str, ext: &str) -> (r: bool)
    ensures
        r == match spec_extension(path@) {
            Some(e) => spec_ascii_caseless_eq(e, ext@),
            None => false,
        },
{
    let cs = str_chars(path);
    let n = cs.len();
    proof {
        assert(cs@.subrange(0, n as int) =~= cs@);
    }
    let ns = match rfind_in(&cs, 0, n, '/') {
        Some(i) => i + 1,
        None => 0,
    };
    proof {
        assert(spec_name_start(path@) == ns as int);
        assert(cs@.subrange(ns as int, n as int) =~= spec_file_name(path@));
    }
    match rfind_in(&cs, ns, n, '.') {
        Some(j) => {
            if j > ns {
                let mut e: Vec<char> = Vec::new();
                push_range(&mut e, &cs, j + 1, n);
                let ec = str_chars(ext);
                proof {
                    assert(e@ =~= spec_file_name(path@).skip(j - ns + 1));
                }
                ascii_caseless_eq(&e, &ec)
            } else {
                false
            }
        },
        None => false,
    }
}

} // verus!
