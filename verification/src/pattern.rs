//! The renamer: a class-name pattern is literal text interleaved with
//! `[name]` and `[hash]` placeholders, parsed once into parts and applied
//! by a single concatenating fold.
use vstd::prelude::*;

use crate::bytes::B_HYPHEN;
use crate::bytes::B_LBRACKET;
use crate::bytes::concat_map;
use crate::bytes::lemma_concat_map_push;
use crate::bytes::lemma_concat_map_split;
use crate::bytes::lemma_concat_map_take_snoc;
use crate::bytes::push_bytes;
use crate::bytes::starts_with_at;
use crate::bytes::subvec;

verus! {

/// One part of a class-name pattern.
#[derive(Clone, Debug, PartialEq)]
pub enum Fragment {
    Str(Vec<u8>),
    Name,
    Hash,
}

/// A parsed class-name pattern: the parts are applied in order.
#[derive(Clone, Debug, PartialEq)]
pub struct ClassNamePattern {
    pub parts: Vec<Fragment>,
}

/// Pattern parsing failed: the byte at `pos` opens neither placeholder.
#[derive(Clone, Copy, Debug, PartialEq, Eq, Structural)]
pub struct PatternError {
    pub pos: usize,
}

/// What one part contributes to an applied pattern.
pub open spec fn frag_expansion(f: Fragment, name: Seq<u8>, hash: Seq<u8>) -> Seq<u8> {
    match f {
        Fragment::Str(s) => s@,
        Fragment::Name => name,
        Fragment::Hash => hash,
    }
}

/// The applied pattern: every part's expansion, concatenated in order.
pub open spec fn apply_spec(parts: Seq<Fragment>, name: Seq<u8>, hash: Seq<u8>) -> Seq<u8> {
    concat_map(parts, |f: Fragment| frag_expansion(f, name, hash))
}

/// The literal `[name]`.
pub open spec fn name_placeholder() -> Seq<u8> {
    seq![B_LBRACKET, 110u8, 97u8, 109u8, 101u8, 93u8]
}

/// The literal `[hash]`.
pub open spec fn hash_placeholder() -> Seq<u8> {
    seq![B_LBRACKET, 104u8, 97u8, 115u8, 104u8, 93u8]
}

/// The text a part was parsed from.
pub open spec fn frag_source(f: Fragment) -> Seq<u8> {
    match f {
        Fragment::Str(s) => s@,
        Fragment::Name => name_placeholder(),
        Fragment::Hash => hash_placeholder(),
    }
}

/// The text a whole pattern was parsed from.
pub open spec fn pattern_source(parts: Seq<Fragment>) -> Seq<u8> {
    concat_map(parts, |f: Fragment| frag_source(f))
}

/// A pattern string is well formed exactly when every `[` in it opens a
/// `[name]` or `[hash]` placeholder.
pub open spec fn placeholder_at(s: Seq<u8>, k: int) -> bool {
    k + 6 <= s.len() && (s.subrange(k, k + 6) == name_placeholder() || s.subrange(k, k + 6)
        == hash_placeholder())
}

pub open spec fn brackets_ok(s: Seq<u8>) -> bool {
    forall|k: int| 0 <= k < s.len() && s[k] == B_LBRACKET ==> #[trigger] placeholder_at(s, k)
}

/// The shape parsing produces: every literal part is a non-empty,
/// bracket-free maximal run — no bracket hides inside a literal, and no
/// two literals stand next to each other.  Together with the source
/// equality this pins the decomposition, and with it what `apply`
/// substitutes.
pub open spec fn pattern_wf(parts: Seq<Fragment>) -> bool {
    (forall|k: int|
        0 <= k < parts.len() ==> ((#[trigger] parts[k]) is Str ==> parts[k]->Str_0@.len() > 0
            && !parts[k]->Str_0@.contains(B_LBRACKET))) && (forall|k: int|
        0 <= k && k + 1 < parts.len() ==> !((#[trigger] parts[k]) is Str && parts[k + 1] is Str))
}

impl ClassNamePattern {
    /// Substitute `classname` and `hash` into the pattern, concatenating
    /// every literal and substituted part in pattern order.
    pub fn apply(&self, classname: &[u8], hash: &[u8]) -> (r: Vec<u8>)
        ensures
            r@ == apply_spec(self.parts@, classname@, hash@),
    {
        let ghost f = |f: Fragment| frag_expansion(f, classname@, hash@);
        let mut out: Vec<u8> = Vec::new();
        let mut k: usize = 0;
        proof {
            assert(self.parts@.take(0) =~= Seq::<Fragment>::empty());
        }
        while k < self.parts.len()
            invariant
                k <= self.parts@.len(),
                out@ == concat_map(self.parts@.take(k as int), f),
                f == (|fr: Fragment| frag_expansion(fr, classname@, hash@)),
            decreases self.parts@.len() - k,
        {
            proof {
                lemma_concat_map_take_snoc(self.parts@, f, k as int);
            }
            match &self.parts[k] {
                Fragment::Str(s) => {
                    push_bytes(&mut out, s.as_slice());
                },
                Fragment::Name => {
                    push_bytes(&mut out, classname);
                },
                Fragment::Hash => {
                    push_bytes(&mut out, hash);
                },
            }
            k = k + 1;
        }
        proof {
            assert(self.parts@.take(self.parts@.len() as int) =~= self.parts@);
        }
        out
    }
}

impl Default for ClassNamePattern {
    /// The default pattern `[name]-[hash]`.
    fn default() -> (r: Self)
        ensures
            r.parts@.len() == 3,
            r.parts@[0] is Name,
            r.parts@[1] is Str && r.parts@[1]->Str_0@ =~= seq![B_HYPHEN],
            r.parts@[2] is Hash,
    {
        let mut sep: Vec<u8> = Vec::new();
        sep.push(B_HYPHEN);
        let mut parts: Vec<Fragment> = Vec::new();
        parts.push(Fragment::Name);
        parts.push(Fragment::Str(sep));
        parts.push(Fragment::Hash);
        ClassNamePattern { parts }
    }
}

/// The literal `[name]` as a value.
fn name_placeholder_vec() -> (v: Vec<u8>)
    ensures
        v@ == name_placeholder(),
{
    let mut v: Vec<u8> = Vec::new();
    v.push(B_LBRACKET);
    v.push(110);
    v.push(97);
    v.push(109);
    v.push(101);
    v.push(93);
    proof {
        assert(v@ =~= name_placeholder());
    }
    v
}

/// The literal `[hash]` as a value.
fn hash_placeholder_vec() -> (v: Vec<u8>)
    ensures
        v@ == hash_placeholder(),
{
    let mut v: Vec<u8> = Vec::new();
    v.push(B_LBRACKET);
    v.push(104);
    v.push(97);
    v.push(115);
    v.push(104);
    v.push(93);
    proof {
        assert(v@ =~= hash_placeholder());
    }
    v
}

/// Appending a placeholder keeps a pattern well formed.
proof fn lemma_pattern_wf_push_placeholder(parts: Seq<Fragment>, f: Fragment)
    requires
        pattern_wf(parts),
        !(f is Str),
    ensures
        pattern_wf(parts.push(f)),
{
    let c = parts.push(f);
    assert forall|k: int|
        0 <= k < c.len() implies ((#[trigger] c[k]) is Str ==> c[k]->Str_0@.len() > 0
        && !c[k]->Str_0@.contains(B_LBRACKET)) by {
        if k < parts.len() {
            assert(c[k] == parts[k]);
        } else {
            assert(c[k] == f);
        }
    }
    assert forall|k: int|
        0 <= k && k + 1 < c.len() implies !((#[trigger] c[k]) is Str && c[k + 1] is Str) by {
        if k + 1 < parts.len() {
            assert(c[k] == parts[k]);
            assert(c[k + 1] == parts[k + 1]);
        } else {
            assert(c[k + 1] == f);
        }
    }
}

/// Appending a non-empty bracket-free literal after a placeholder (or
/// at the front) keeps a pattern well formed.
proof fn lemma_pattern_wf_push_literal(parts: Seq<Fragment>, lit: Vec<u8>)
    requires
        pattern_wf(parts),
        lit@.len() > 0,
        !lit@.contains(B_LBRACKET),
        parts.len() > 0 ==> !(parts.last() is Str),
    ensures
        pattern_wf(parts.push(Fragment::Str(lit))),
{
    let c = parts.push(Fragment::Str(lit));
    assert forall|k: int|
        0 <= k < c.len() implies ((#[trigger] c[k]) is Str ==> c[k]->Str_0@.len() > 0
        && !c[k]->Str_0@.contains(B_LBRACKET)) by {
        if k < parts.len() {
            assert(c[k] == parts[k]);
        } else {
            assert(c[k] == Fragment::Str(lit));
        }
    }
    assert forall|k: int|
        0 <= k && k + 1 < c.len() implies !((#[trigger] c[k]) is Str && c[k + 1] is Str) by {
        if k + 1 < parts.len() {
            assert(c[k] == parts[k]);
            assert(c[k + 1] == parts[k + 1]);
        } else {
            assert(c[k] == parts.last());
        }
    }
}

/// Parse a pattern string into parts: maximal literal runs up to the
/// next `[`, and the two placeholders.  Succeeds exactly when every `[`
/// opens a placeholder; on failure the error holds the offending
/// position.
pub fn parse_pattern(input: &[u8]) -> (r: Result<ClassNamePattern, PatternError>)
    ensures
        r is Ok <==> brackets_ok(input@),
        r is Ok ==> pattern_source(r->Ok_0.parts@) == input@,
        r is Ok ==> pattern_wf(r->Ok_0.parts@),
        r is Err ==> ({
            let p = r->Err_0.pos;
            &&& p < input@.len()
            &&& input@[p as int] == B_LBRACKET
            &&& !placeholder_at(input@, p as int)
        }),
{
    let ghost f = |fr: Fragment| frag_source(fr);
    let name_ph = name_placeholder_vec();
    let hash_ph = hash_placeholder_vec();
    let n = input.len();
    let mut parts: Vec<Fragment> = Vec::new();
    let mut cur: usize = 0;
    while cur < n
        invariant
            cur <= n == input@.len() <= usize::MAX,
            pattern_source(parts@) == input@.take(cur as int),
            forall|k: int|
                0 <= k < cur && input@[k] == B_LBRACKET ==> #[trigger] placeholder_at(input@, k),
            pattern_wf(parts@),
            parts@.len() > 0 && parts@.last() is Str ==> (cur == n || input@[cur as int]
                == B_LBRACKET),
            name_ph@ == name_placeholder(),
            hash_ph@ == hash_placeholder(),
            f == (|fr: Fragment| frag_source(fr)),
        decreases n - cur,
    {
        if input[cur] == B_LBRACKET {
            if starts_with_at(input, cur, name_ph.as_slice()) {
                proof {
                    lemma_concat_map_push(parts@, f, Fragment::Name);
                    assert(input@.take(cur + 6) =~= input@.take(cur as int) + input@.subrange(
                        cur as int,
                        cur + 6,
                    ));
                }
                proof {
                    lemma_pattern_wf_push_placeholder(parts@, Fragment::Name);
                }
                parts.push(Fragment::Name);
                cur = cur + 6;
            } else if starts_with_at(input, cur, hash_ph.as_slice()) {
                proof {
                    lemma_concat_map_push(parts@, f, Fragment::Hash);
                    assert(input@.take(cur + 6) =~= input@.take(cur as int) + input@.subrange(
                        cur as int,
                        cur + 6,
                    ));
                }
                proof {
                    lemma_pattern_wf_push_placeholder(parts@, Fragment::Hash);
                }
                parts.push(Fragment::Hash);
                cur = cur + 6;
            } else {
                proof {
                    assert(!placeholder_at(input@, cur as int));
                    assert(!brackets_ok(input@)) by {
                        if brackets_ok(input@) {
                            assert(placeholder_at(input@, cur as int));
                        }
                    }
                }
                return Err(PatternError { pos: cur });
            }
        } else {
            let start = cur;
            let mut j: usize = cur + 1;
            while j < n && input[j] != B_LBRACKET
                invariant
                    start < j <= n == input@.len() <= usize::MAX,
                    forall|k: int| start < k < j ==> input@[k] != B_LBRACKET,
                decreases n - j,
            {
                j = j + 1;
            }
            let lit = subvec(input, start, j);
            proof {
                lemma_concat_map_push(parts@, f, Fragment::Str(lit));
                assert(input@.take(j as int) =~= input@.take(start as int) + input@.subrange(
                    start as int,
                    j as int,
                ));
                assert(!lit@.contains(B_LBRACKET)) by {
                    if lit@.contains(B_LBRACKET) {
                        let x = choose|x: int| 0 <= x < lit@.len() && #[trigger] lit@[x]
                            == B_LBRACKET;
                        assert(input@[start + x] == B_LBRACKET);
                    }
                }
                if parts@.len() > 0 {
                    assert(!(parts@.last() is Str));
                }
                lemma_pattern_wf_push_literal(parts@, lit);
            }
            parts.push(Fragment::Str(lit));
            cur = j;
        }
    }
    proof {
        assert(input@.take(n as int) =~= input@);
    }
    Ok(ClassNamePattern { parts })
}

/// Offset of part `k`'s expansion inside the applied pattern.
pub open spec fn expansion_offset(
    parts: Seq<Fragment>,
    name: Seq<u8>,
    hash: Seq<u8>,
    k: int,
) -> int {
    apply_spec(parts.take(k), name, hash).len() as int
}

/// Applying a pattern always carries the original class name through as
/// a contiguous substring: wherever the pattern holds a `[name]` part,
/// the applied text holds exactly `name` at the offset determined by the
/// expansions of the parts before it.
pub proof fn lemma_apply_contains_name(parts: Seq<Fragment>, name: Seq<u8>, hash: Seq<u8>, k: int)
    requires
        0 <= k < parts.len(),
        parts[k] is Name,
    ensures
        ({
            let off = expansion_offset(parts, name, hash, k);
            &&& 0 <= off
            &&& off + name.len() <= apply_spec(parts, name, hash).len()
            &&& apply_spec(parts, name, hash).subrange(off, off + name.len()) == name
        }),
{
    let f = |fr: Fragment| frag_expansion(fr, name, hash);
    lemma_concat_map_split(parts, f, k);
    let pre = concat_map(parts.take(k), f);
    let post = concat_map(parts.skip(k + 1), f);
    assert(apply_spec(parts, name, hash) == pre + name + post);
    assert((pre + name + post).subrange(pre.len() as int, pre.len() as int + name.len() as int) =~= name);
}

/// The digest is carried through in the same way wherever the pattern
/// holds a `[hash]` part.
pub proof fn lemma_apply_contains_hash(parts: Seq<Fragment>, name: Seq<u8>, hash: Seq<u8>, k: int)
    requires
        0 <= k < parts.len(),
        parts[k] is Hash,
    ensures
        ({
            let off = expansion_offset(parts, name, hash, k);
            &&& 0 <= off
            &&& off + hash.len() <= apply_spec(parts, name, hash).len()
            &&& apply_spec(parts, name, hash).subrange(off, off + hash.len()) == hash
        }),
{
    let f = |fr: Fragment| frag_expansion(fr, name, hash);
    lemma_concat_map_split(parts, f, k);
    let pre = concat_map(parts.take(k), f);
    let post = concat_map(parts.skip(k + 1), f);
    assert(apply_spec(parts, name, hash) == pre + hash + post);
    assert((pre + hash + post).subrange(pre.len() as int, pre.len() as int + hash.len() as int) =~= hash);
}

/// The default rename: `class`, a hyphen, then the digest.
pub fn modify_class(class: &[u8], hash_str: &[u8]) -> (r: Vec<u8>)
    ensures
        r@ == class@ + seq![B_HYPHEN] + hash_str@,
{
    let mut out: Vec<u8> = Vec::new();
    push_bytes(&mut out, class);
    out.push(B_HYPHEN);
    push_bytes(&mut out, hash_str);
    proof {
        assert(out@ =~= class@ + seq![B_HYPHEN] + hash_str@);
    }
    out
}

} // verus!
