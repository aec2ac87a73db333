//! Path text helpers for the orchestrator: file-name and extension
//! extraction from normalized (forward-slash) path strings, extension
//! matching, and generated output-file naming.
use vstd::prelude::*;

use crate::bytes::B_DOT;
use crate::bytes::B_HYPHEN;
use crate::bytes::B_SLASH;
use crate::bytes::ends_with;
use crate::bytes::push_bytes;
use crate::bytes::subvec;

verus! {

/// `suffix` ends `s`.
pub open spec fn is_suffix(suffix: Seq<u8>, s: Seq<u8>) -> bool {
    suffix.len() <= s.len() && s.subrange(s.len() - suffix.len(), s.len() as int) == suffix
}

/// The position of the last occurrence of `c` in `p`, or -1.
pub open spec fn rlast(p: Seq<u8>, c: u8) -> int
    decreases p.len(),
{
    if p.len() == 0 {
        -1
    } else if p.last() == c {
        p.len() - 1
    } else {
        rlast(p.drop_last(), c)
    }
}

/// `rlast` is characterized by a separator at `k - 1` (or none at all
/// when `k == 0`) and no separator from `k` on.
pub proof fn lemma_rlast_char(p: Seq<u8>, c: u8, k: int)
    requires
        0 <= k <= p.len(),
        k > 0 ==> p[k - 1] == c,
        forall|j: int| k <= j < p.len() ==> p[j] != c,
    ensures
        rlast(p, c) == k - 1,
    decreases p.len(),
{
    if p.len() == 0 {
    } else if k == p.len() {
        assert(p.last() == c);
    } else {
        assert(p.last() != c);
        assert forall|j: int| k <= j < p.drop_last().len() implies p.drop_last()[j] != c by {
            assert(p.drop_last()[j] == p[j]);
        }
        if k > 0 {
            assert(p.drop_last()[k - 1] == p[k - 1]);
        }
        lemma_rlast_char(p.drop_last(), c, k);
    }
}

/// The file-name component: everything after the last slash.
pub open spec fn file_name_spec(p: Seq<u8>) -> Seq<u8> {
    p.subrange(rlast(p, B_SLASH) + 1, p.len() as int)
}

/// Extract the file-name component of a normalized path.
pub fn file_name(p: &[u8]) -> (r: Vec<u8>)
    ensures
        r@ == file_name_spec(p@),
{
    let n = p.len();
    let mut k: usize = n;
    while k > 0 && p[k - 1] != B_SLASH
        invariant
            k <= n == p@.len(),
            forall|j: int| k <= j < n ==> p@[j] != B_SLASH,
        decreases k,
    {
        k = k - 1;
    }
    proof {
        lemma_rlast_char(p@, B_SLASH, k as int);
    }
    subvec(p, k, n)
}

/// The extension of a file name within a path: the text after the last
/// dot of the name, unless the name has no dot or only a leading one.
pub open spec fn extension_spec(p: Seq<u8>) -> Option<Seq<u8>> {
    let f = file_name_spec(p);
    let d = rlast(f, B_DOT);
    if d <= 0 {
        Option::None
    } else {
        Option::Some(f.subrange(d + 1, f.len() as int))
    }
}

/// The file name without its extension; the whole name when there is no
/// extension.
pub open spec fn stem_spec(p: Seq<u8>) -> Seq<u8> {
    let f = file_name_spec(p);
    let d = rlast(f, B_DOT);
    if d <= 0 {
        f
    } else {
        f.subrange(0, d)
    }
}

/// Extract the extension of a normalized path's file name.
pub fn extension_of(p: &[u8]) -> (r: Option<Vec<u8>>)
    ensures
        r is Some <==> extension_spec(p@) is Some,
        r is Some ==> r->0@ == extension_spec(p@)->0,
{
    let f = file_name(p);
    let n = f.len();
    let mut k: usize = n;
    while k > 0 && f[k - 1] != B_DOT
        invariant
            k <= n == f@.len(),
            forall|j: int| k <= j < n ==> f@[j] != B_DOT,
        decreases k,
    {
        k = k - 1;
    }
    proof {
        lemma_rlast_char(f@, B_DOT, k as int);
    }
    if k <= 1 {
        None
    } else {
        Some(subvec(f.as_slice(), k, n))
    }
}

/// Extract the stem of a normalized path's file name.
pub fn stem_of(p: &[u8]) -> (r: Vec<u8>)
    ensures
        r@ == stem_spec(p@),
{
    let f = file_name(p);
    let n = f.len();
    let mut k: usize = n;
    while k > 0 && f[k - 1] != B_DOT
        invariant
            k <= n == f@.len(),
            forall|j: int| k <= j < n ==> f@[j] != B_DOT,
        decreases k,
    {
        k = k - 1;
    }
    proof {
        lemma_rlast_char(f@, B_DOT, k as int);
    }
    if k <= 1 {
        f
    } else {
        subvec(f.as_slice(), 0, k - 1)
    }
}

/// True when the path ends with one of the configured extensions.
pub fn matches_extension(path: &[u8], extensions: &Vec<Vec<u8>>) -> (r: bool)
    ensures
        r == exists|k: int|
            0 <= k < extensions@.len() && is_suffix(#[trigger] extensions@[k]@, path@),
{
    let mut k: usize = 0;
    while k < extensions.len()
        invariant
            k <= extensions@.len(),
            forall|j: int| 0 <= j < k ==> !is_suffix(#[trigger] extensions@[j]@, path@),
        decreases extensions@.len() - k,
    {
        if ends_with(path, extensions[k].as_slice()) {
            proof {
                assert(is_suffix(extensions@[k as int]@, path@));
            }
            return true;
        }
        k = k + 1;
    }
    false
}

/// The literal `scss`.
pub open spec fn scss_ext() -> Seq<u8> {
    seq![115u8, 99u8, 115u8, 115u8]
}

/// The literal `css`.
pub open spec fn css_ext() -> Seq<u8> {
    seq![99u8, 115u8, 115u8]
}

pub fn scss_ext_vec() -> (v: Vec<u8>)
    ensures
        v@ == scss_ext(),
{
    let mut v: Vec<u8> = Vec::new();
    v.push(115);
    v.push(99);
    v.push(115);
    v.push(115);
    proof {
        assert(v@ =~= scss_ext());
    }
    v
}

pub fn css_ext_vec() -> (v: Vec<u8>)
    ensures
        v@ == css_ext(),
{
    let mut v: Vec<u8> = Vec::new();
    v.push(99);
    v.push(115);
    v.push(115);
    proof {
        assert(v@ =~= css_ext());
    }
    v
}

/// Whether the path's extension is exactly `scss`.
pub fn has_scss_extension(p: &[u8]) -> (r: bool)
    ensures
        r == (extension_spec(p@) is Some && extension_spec(p@)->0 == scss_ext()),
{
    match extension_of(p) {
        Some(e) => {
            let pat = scss_ext_vec();
            crate::bytes::bytes_eq(e.as_slice(), pat.as_slice())
        },
        None => false,
    }
}

/// The extension a generated file carries: the source's own `css`, or
/// `scss` for anything else.
pub open spec fn out_ext_spec(p: Seq<u8>) -> Seq<u8> {
    if extension_spec(p) is Some && extension_spec(p)->0 == css_ext() {
        css_ext()
    } else {
        scss_ext()
    }
}

/// The name of the generated file for a source path and its digest:
/// `<stem>-<digest>.<ext>`.
pub open spec fn out_name_spec(p: Seq<u8>, h: Seq<u8>) -> Seq<u8> {
    stem_spec(p) + seq![B_HYPHEN] + h + seq![B_DOT] + out_ext_spec(p)
}

/// Build the generated file's name for a source path and its digest.
pub fn out_file_name(p: &[u8], h: &[u8]) -> (r: Vec<u8>)
    ensures
        r@ == out_name_spec(p@, h@),
{
    let mut out = stem_of(p);
    out.push(B_HYPHEN);
    push_bytes(&mut out, h);
    out.push(B_DOT);
    let is_css = match extension_of(p) {
        Some(e) => {
            let pat = css_ext_vec();
            crate::bytes::bytes_eq(e.as_slice(), pat.as_slice())
        },
        None => false,
    };
    if is_css {
        let pat = css_ext_vec();
        push_bytes(&mut out, pat.as_slice());
    } else {
        let pat = scss_ext_vec();
        push_bytes(&mut out, pat.as_slice());
    }
    proof {
        assert(out@ =~= out_name_spec(p@, h@));
    }
    out
}

} // verus!
