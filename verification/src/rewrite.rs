//! The rewrite engine: with the fragments of a scanned document in hand,
//! splice replacement text over each fragment span with a single forward
//! cursor, copying every byte outside the spans through unchanged; and
//! collect the deduplicated, sorted list of class names with their
//! renamed forms.
use vstd::prelude::*;

use crate::bytes::bytes_eq;
use crate::bytes::bytes_le;
use crate::bytes::lemma_lex_total;
use crate::bytes::lex_le;
use crate::bytes::push_bytes;
use crate::bytes::subvec;
use crate::parse::CssFragment;
use crate::parse::frag_hi;
use crate::parse::frag_lo;
use crate::parse::frag_wf;
use crate::parse::frags_in;
use crate::pattern::ClassNamePattern;
use crate::pattern::Fragment;
use crate::pattern::apply_spec;

verus! {

/// A class name and the renamed form it maps to.
#[derive(Clone, Debug, PartialEq)]
pub struct Class {
    pub original_name: Vec<u8>,
    pub hashed_name: Vec<u8>,
}

/// What replaces one fragment: a class selector becomes the applied
/// pattern over its identifier, a global escape becomes its inner text.
pub open spec fn frag_replacement(
    s: Seq<u8>,
    f: CssFragment,
    parts: Seq<Fragment>,
    hash: Seq<u8>,
) -> Seq<u8> {
    match f {
        CssFragment::Class(sp) => apply_spec(
            parts,
            s.subrange(sp.start as int, sp.end as int),
            hash,
        ),
        CssFragment::Global(g) => s.subrange(g.inner.start as int, g.inner.end as int),
    }
}

/// Splice arbitrary replacement texts over the fragment spans of `s`,
/// left to right from cursor `c`: the text between the cursor and each
/// span is copied verbatim, the span's bytes are replaced, and the tail
/// after the last span is copied verbatim.
pub open spec fn splice_from(
    s: Seq<u8>,
    fs: Seq<CssFragment>,
    c: int,
    repls: Seq<Seq<u8>>,
) -> Seq<u8>
    decreases fs.len(),
{
    if fs.len() == 0 {
        s.subrange(c, s.len() as int)
    } else {
        s.subrange(c, frag_lo(fs[0])) + repls[0] + splice_from(
            s,
            fs.skip(1),
            frag_hi(fs[0]),
            repls.skip(1),
        )
    }
}

/// The replacement text of every fragment, in order.
pub open spec fn replacements_of(
    s: Seq<u8>,
    fs: Seq<CssFragment>,
    parts: Seq<Fragment>,
    hash: Seq<u8>,
) -> Seq<Seq<u8>> {
    fs.map_values(|f: CssFragment| frag_replacement(s, f, parts, hash))
}

/// The original text of every fragment span, in order.
pub open spec fn originals_of(s: Seq<u8>, fs: Seq<CssFragment>) -> Seq<Seq<u8>> {
    fs.map_values(|f: CssFragment| s.subrange(frag_lo(f), frag_hi(f)))
}

/// The rewritten document.
pub open spec fn rewrite_spec(
    s: Seq<u8>,
    fs: Seq<CssFragment>,
    parts: Seq<Fragment>,
    hash: Seq<u8>,
) -> Seq<u8> {
    splice_from(s, fs, 0, replacements_of(s, fs, parts, hash))
}

/// Fragments earlier in a well-formed sequence end before later ones
/// begin.
pub proof fn lemma_frags_chain(fs: Seq<CssFragment>, lo: int, hi: int, a: int, b: int)
    requires
        frags_in(fs, lo, hi),
        0 <= a < b < fs.len(),
    ensures
        frag_hi(fs[a]) <= frag_lo(fs[b]),
    decreases b - a,
{
    if b > a + 1 {
        lemma_frags_chain(fs, lo, hi, a, b - 1);
        assert(frag_wf(fs[b - 1]));
        assert(frag_lo(fs[b - 1]) < frag_hi(fs[b - 1]));
        assert(frag_hi(fs[b - 1]) <= frag_lo(fs[b]));
    }
}

/// Dropping the first fragment leaves a well-formed sequence that starts
/// at or after the dropped fragment's end.
pub proof fn lemma_frags_skip_first(fs: Seq<CssFragment>, lo: int, hi: int)
    requires
        frags_in(fs, lo, hi),
        fs.len() > 0,
    ensures
        frags_in(fs.skip(1), frag_hi(fs[0]), hi),
{
    let t = fs.skip(1);
    assert forall|k: int| 0 <= k < t.len() implies frag_wf(#[trigger] t[k]) && frag_hi(fs[0])
        <= frag_lo(t[k]) && frag_hi(t[k]) <= hi by {
        assert(t[k] == fs[k + 1]);
        lemma_frags_chain(fs, lo, hi, 0, k + 1);
    }
    assert forall|k: int| 0 <= k && k + 1 < t.len() implies frag_hi(t[k]) <= frag_lo(
        #[trigger] t[k + 1],
    ) by {
        assert(t[k] == fs[k + 1]);
        assert(t[k + 1] == fs[k + 2]);
    }
}

/// Splicing every fragment's own original text back over its span
/// reconstructs the source exactly: a rewrite differs from its input
/// only at the fragment spans.
pub proof fn lemma_splice_originals_identity(s: Seq<u8>, fs: Seq<CssFragment>, c: int)
    requires
        frags_in(fs, c, s.len() as int),
        0 <= c <= s.len(),
    ensures
        splice_from(s, fs, c, originals_of(s, fs)) == s.subrange(c, s.len() as int),
    decreases fs.len(),
{
    if fs.len() > 0 {
        let f0 = fs[0];
        lemma_frags_skip_first(fs, c, s.len() as int);
        lemma_splice_originals_identity(s, fs.skip(1), frag_hi(f0));
        assert(originals_of(s, fs).skip(1) =~= originals_of(s, fs.skip(1)));
        assert(originals_of(s, fs)[0] == s.subrange(frag_lo(f0), frag_hi(f0)));
        assert(splice_from(s, fs, c, originals_of(s, fs)) == s.subrange(c, frag_lo(f0))
            + s.subrange(frag_lo(f0), frag_hi(f0)) + s.subrange(frag_hi(f0), s.len() as int));
        assert(s.subrange(c, frag_lo(f0)) + s.subrange(frag_lo(f0), frag_hi(f0)) + s.subrange(
            frag_hi(f0),
            s.len() as int,
        ) =~= s.subrange(c, s.len() as int));
    }
}

/// One unfolding of the splice at position `k`.
proof fn lemma_splice_unfold(
    s: Seq<u8>,
    fs: Seq<CssFragment>,
    repls: Seq<Seq<u8>>,
    k: int,
    c: int,
)
    requires
        0 <= k < fs.len(),
        repls.len() == fs.len(),
    ensures
        splice_from(s, fs.skip(k), c, repls.skip(k)) == s.subrange(c, frag_lo(fs[k]))
            + repls.skip(k)[0] + splice_from(s, fs.skip(k + 1), frag_hi(fs[k]), repls.skip(k + 1)),
{
    assert(fs.skip(k)[0] == fs[k]);
    assert(fs.skip(k).skip(1) =~= fs.skip(k + 1));
    assert(repls.skip(k).skip(1) =~= repls.skip(k + 1));
}

/// Rewrite a scanned document: for each fragment in order, copy the text
/// before its span, emit its replacement — the renamed class, or the
/// inner text of a global escape — and continue past the span; then copy
/// the tail.
#[verifier::rlimit(100)]
pub fn rewrite_css(
    s: &[u8],
    frags: &Vec<CssFragment>,
    hash: &[u8],
    pattern: &ClassNamePattern,
) -> (r: Vec<u8>)
    requires
        frags_in(frags@, 0, s@.len() as int),
        s@.len() <= usize::MAX,
    ensures
        r@ == rewrite_spec(s@, frags@, pattern.parts@, hash@),
{
    let ghost repls = replacements_of(s@, frags@, pattern.parts@, hash@);
    let mut out: Vec<u8> = Vec::new();
    let mut cursor: usize = 0;
    let mut k: usize = 0;
    proof {
        assert(frags@.skip(0) =~= frags@);
        assert(repls.skip(0) =~= repls);
    }
    while k < frags.len()
        invariant
            frags_in(frags@, 0, s@.len() as int),
            s@.len() <= usize::MAX,
            k <= frags@.len(),
            cursor <= s@.len(),
            cursor == if k == 0 {
                0int
            } else {
                frag_hi(frags@[k - 1])
            },
            repls == replacements_of(s@, frags@, pattern.parts@, hash@),
            out@ + splice_from(s@, frags@.skip(k as int), cursor as int, repls.skip(k as int))
                == rewrite_spec(s@, frags@, pattern.parts@, hash@),
        decreases frags@.len() - k,
    {
        let f = frags[k];
        proof {
            if k > 0 {
                lemma_frags_chain(frags@, 0, s@.len() as int, k - 1, k as int);
            }
            assert(repls.len() == frags@.len());
            lemma_splice_unfold(s@, frags@, repls, k as int, cursor as int);
            assert(repls.skip(k as int)[0] == repls[k as int]);
        }
        match f {
            CssFragment::Class(sp) => {
                let gap = subvec(s, cursor, sp.start);
                push_bytes(&mut out, gap.as_slice());
                let text = subvec(s, sp.start, sp.end);
                let repl = pattern.apply(text.as_slice(), hash);
                push_bytes(&mut out, repl.as_slice());
                cursor = sp.end;
            },
            CssFragment::Global(g) => {
                let gap = subvec(s, cursor, g.outer.start);
                push_bytes(&mut out, gap.as_slice());
                let inner = subvec(s, g.inner.start, g.inner.end);
                push_bytes(&mut out, inner.as_slice());
                cursor = g.outer.end;
            },
        }
        k = k + 1;
    }
    proof {
        assert(frags@.skip(frags@.len() as int) =~= Seq::<CssFragment>::empty());
        assert(out@ + s@.subrange(cursor as int, s@.len() as int) == rewrite_spec(
            s@,
            frags@,
            pattern.parts@,
            hash@,
        ));
    }
    let tail = subvec(s, cursor, s.len());
    push_bytes(&mut out, tail.as_slice());
    out
}

/// The views of a list of byte strings.
pub open spec fn views(l: Seq<Vec<u8>>) -> Seq<Seq<u8>> {
    l.map_values(|v: Vec<u8>| v@)
}

/// The class-selector identifier texts of a fragment sequence, in
/// document order.
pub open spec fn class_texts(s: Seq<u8>, fs: Seq<CssFragment>) -> Seq<Seq<u8>>
    decreases fs.len(),
{
    if fs.len() == 0 {
        Seq::empty()
    } else {
        class_texts(s, fs.drop_last()) + (match fs.last() {
            CssFragment::Class(sp) => seq![s.subrange(sp.start as int, sp.end as int)],
            CssFragment::Global(_) => Seq::empty(),
        })
    }
}

/// Strictly increasing lexicographic order: sorted, with no duplicates.
pub open spec fn strictly_sorted(q: Seq<Seq<u8>>) -> bool {
    forall|k: int|
        0 <= k && k + 1 < q.len() ==> lex_le(q[k], #[trigger] q[k + 1]) && q[k] != q[k + 1]
}

/// Gather every class selector's text from a scanned document.
fn gather_class_texts(s: &[u8], frags: &Vec<CssFragment>) -> (r: Vec<Vec<u8>>)
    requires
        frags_in(frags@, 0, s@.len() as int),
        s@.len() <= usize::MAX,
    ensures
        views(r@) == class_texts(s@, frags@),
{
    let mut out: Vec<Vec<u8>> = Vec::new();
    let mut k: usize = 0;
    proof {
        assert(frags@.take(0) =~= Seq::<CssFragment>::empty());
        assert(views(out@) =~= class_texts(s@, frags@.take(0)));
    }
    while k < frags.len()
        invariant
            frags_in(frags@, 0, s@.len() as int),
            s@.len() <= usize::MAX,
            k <= frags@.len(),
            views(out@) == class_texts(s@, frags@.take(k as int)),
        decreases frags@.len() - k,
    {
        proof {
            assert(frags@.take(k + 1).drop_last() =~= frags@.take(k as int));
            assert(frags@.take(k + 1).last() == frags@[k as int]);
        }
        match frags[k] {
            CssFragment::Class(sp) => {
                let text = subvec(s, sp.start, sp.end);
                proof {
                    assert(views(out@.push(text)) =~= views(out@).push(text@));
                    assert(views(out@).push(text@) =~= class_texts(s@, frags@.take(k + 1)));
                }
                out.push(text);
            },
            CssFragment::Global(_) => {
                proof {
                    assert(class_texts(s@, frags@.take(k + 1)) =~= class_texts(
                        s@,
                        frags@.take(k as int),
                    ));
                }
            },
        }
        k = k + 1;
    }
    proof {
        assert(frags@.take(frags@.len() as int) =~= frags@);
    }
    out
}

/// Sort byte strings into lexicographic order, keeping the multiset of
/// values: repeatedly move the least remaining string to the output.
fn sort_names(input: Vec<Vec<u8>>) -> (r: Vec<Vec<u8>>)
    ensures
        views(r@).to_multiset() == views(input@).to_multiset(),
        forall|k: int|
            0 <= k && k + 1 < r@.len() ==> lex_le(views(r@)[k], #[trigger] views(r@)[k + 1]),
{
    broadcast use vstd::seq_lib::group_to_multiset_ensures;
    broadcast use vstd::multiset::group_multiset_axioms;

    let mut rest = input;
    let mut out: Vec<Vec<u8>> = Vec::new();
    proof {
        assert(views(out@) =~= Seq::<Seq<u8>>::empty());
        assert(views(out@).to_multiset().add(views(rest@).to_multiset()) =~= views(
            input@,
        ).to_multiset());
    }
    while rest.len() > 0
        invariant
            views(out@).to_multiset().add(views(rest@).to_multiset()) == views(
                input@,
            ).to_multiset(),
            forall|k: int|
                0 <= k && k + 1 < out@.len() ==> lex_le(views(out@)[k], #[trigger] views(out@)[k
                    + 1]),
            forall|a: int, b: int|
                0 <= a < out@.len() && 0 <= b < rest@.len() ==> lex_le(
                    #[trigger] views(out@)[a],
                    #[trigger] views(rest@)[b],
                ),
        decreases rest@.len(),
    {
        let mut m: usize = 0;
        let mut idx: usize = 1;
        proof {
            lemma_lex_total(views(rest@)[0], views(rest@)[0]);
        }
        while idx < rest.len()
            invariant
                m < idx <= rest@.len(),
                rest@.len() >= 1,
                forall|j: int| 0 <= j < idx ==> lex_le(views(rest@)[m as int], #[trigger] views(rest@)[j]),
            decreases rest@.len() - idx,
        {
            if bytes_le(rest[idx].as_slice(), rest[m].as_slice()) {
                proof {
                    assert forall|j: int| 0 <= j < idx + 1 implies lex_le(
                        views(rest@)[idx as int],
                        #[trigger] views(rest@)[j],
                    ) by {
                        if j == idx {
                            lemma_lex_total(views(rest@)[idx as int], views(rest@)[idx as int]);
                        } else {
                            lemma_lex_trans_helper(
                                views(rest@)[idx as int],
                                views(rest@)[m as int],
                                views(rest@)[j],
                            );
                        }
                    }
                }
                m = idx;
            } else {
                proof {
                    lemma_lex_total(views(rest@)[m as int], views(rest@)[idx as int]);
                }
            }
            idx = idx + 1;
        }
        let ghost rest_old = rest@;
        let ghost out_old = out@;
        let x = rest.remove(m);
        proof {
            assert(x@ == views(rest_old)[m as int]);
            assert(views(rest@) =~= views(rest_old).remove(m as int));
            vstd::seq_lib::to_multiset_remove(views(rest_old), m as int);
            assert(views(rest@).to_multiset() =~= views(rest_old).to_multiset().remove(x@));
        }
        out.push(x);
        proof {
            assert(views(out@) =~= views(out_old).push(x@));
            vstd::seq_lib::to_multiset_build(views(out_old), x@);
            assert(views(out@).to_multiset() =~= views(out_old).to_multiset().insert(x@));
            vstd::seq_lib::to_multiset_contains(views(rest_old), x@);
            assert(views(rest_old)[m as int] == x@);
            assert(views(rest_old).contains(x@));
            assert(views(rest_old).to_multiset().count(x@) > 0);
            assert(views(out_old).to_multiset().insert(x@).add(
                views(rest_old).to_multiset().remove(x@),
            ) =~= views(out_old).to_multiset().add(views(rest_old).to_multiset()));
            // the new output stays sorted: the moved string is the least
            assert forall|k: int|
                0 <= k && k + 1 < out@.len() implies lex_le(
                views(out@)[k],
                #[trigger] views(out@)[k + 1],
            ) by {
                if k + 1 < out_old.len() {
                    assert(views(out@)[k] == views(out_old)[k]);
                    assert(views(out@)[k + 1] == views(out_old)[k + 1]);
                } else {
                    assert(views(out@)[k] == views(out_old)[k]);
                    assert(views(out@)[k + 1] == x@);
                    assert(lex_le(views(out_old)[k], views(rest_old)[m as int]));
                }
            }
            // every remaining string is at or above everything moved out
            assert forall|a: int, b: int|
                0 <= a < out@.len() && 0 <= b < rest@.len() implies lex_le(
                #[trigger] views(out@)[a],
                #[trigger] views(rest@)[b],
            ) by {
                let orig_b = if b < m as int {
                    b
                } else {
                    b + 1
                };
                assert(views(rest@)[b] == views(rest_old)[orig_b]);
                if a < out_old.len() {
                    assert(views(out@)[a] == views(out_old)[a]);
                    assert(lex_le(views(out_old)[a], views(rest_old)[orig_b]));
                } else {
                    assert(views(out@)[a] == x@);
                    assert(lex_le(views(rest_old)[m as int], views(rest_old)[orig_b]));
                }
            }
        }
    }
    out
}

/// Transitivity restated for use inside quantified proofs.
proof fn lemma_lex_trans_helper(a: Seq<u8>, b: Seq<u8>, c: Seq<u8>)
    requires
        lex_le(a, b),
        lex_le(b, c),
    ensures
        lex_le(a, c),
{
    crate::bytes::lemma_lex_trans(a, b, c);
}


/// Non-decreasing lexicographic order.
pub open spec fn sorted_le(q: Seq<Seq<u8>>) -> bool {
    forall|k: int| 0 <= k && k + 1 < q.len() ==> lex_le(#[trigger] q[k], q[k + 1])
}

/// In a sorted list, any earlier string is at or below any later one.
proof fn lemma_sorted_chain(q: Seq<Seq<u8>>, a: int, b: int)
    requires
        sorted_le(q),
        0 <= a <= b < q.len(),
    ensures
        lex_le(q[a], q[b]),
    decreases b - a,
{
    if a == b {
        lemma_lex_total(q[a], q[a]);
    } else {
        lemma_sorted_chain(q, a, b - 1);
        lemma_lex_trans_helper(q[a], q[b - 1], q[b]);
    }
}

/// Keep the first of each run of equal strings in a sorted list: the
/// result is strictly sorted and holds exactly the same set of strings.
fn dedup_sorted(input: Vec<Vec<u8>>) -> (r: Vec<Vec<u8>>)
    requires
        sorted_le(views(input@)),
    ensures
        strictly_sorted(views(r@)),
        forall|t: Seq<u8>|
            #[trigger] views(r@).contains(t) <==> views(input@).contains(t),
{
    let mut out: Vec<Vec<u8>> = Vec::new();
    let mut k: usize = 0;
    let ghost mut last_idx: int = 0;
    while k < input.len()
        invariant
            k <= input@.len(),
            sorted_le(views(input@)),
            strictly_sorted(views(out@)),
            out@.len() > 0 ==> 0 <= last_idx < k as int && views(out@).last() == views(
                input@,
            )[last_idx],
            out@.len() == 0 ==> k == 0,
            forall|t: Seq<u8>|
                #[trigger] views(out@).contains(t) <==> views(input@).take(k as int).contains(t),
        decreases input@.len() - k,
    {
        let ghost out_old = out@;
        let is_dup = out.len() > 0 && bytes_eq(
            out[out.len() - 1].as_slice(),
            input[k].as_slice(),
        );
        if !is_dup {
            let x = input[k].clone();
            proof {
                assert(x@ == views(input@)[k as int]);
            }
            out.push(x);
            proof {
                assert(views(out@) =~= views(out_old).push(views(input@)[k as int]));
                // strict order against the previous last element
                assert forall|a: int|
                    0 <= a && a + 1 < out@.len() implies lex_le(
                    #[trigger] views(out@)[a],
                    views(out@)[a + 1],
                ) && views(out@)[a] != views(out@)[a + 1] by {
                    if a + 1 < out_old.len() {
                        assert(views(out@)[a] == views(out_old)[a]);
                        assert(views(out@)[a + 1] == views(out_old)[a + 1]);
                    } else {
                        assert(views(out@)[a] == views(out_old).last());
                        assert(views(out@)[a + 1] == views(input@)[k as int]);
                        lemma_sorted_chain(views(input@), last_idx, k as int);
                    }
                }
            }
            proof {
                last_idx = k as int;
            }
        }
        proof {
            let cur = views(input@)[k as int];
            assert(views(input@).take(k + 1) =~= views(input@).take(k as int).push(cur));
            if is_dup {
                assert(views(out@).last() == cur);
                assert(views(out@).contains(cur));
            }
            assert forall|t: Seq<u8>| #[trigger] views(out@).contains(t) implies views(
                input@,
            ).take(k + 1).contains(t) by {
                let i = choose|i: int| 0 <= i < views(out@).len() && #[trigger] views(out@)[i] == t;
                if !is_dup && i == views(out@).len() - 1 {
                    assert(views(input@).take(k + 1)[k as int] == t);
                } else {
                    assert(views(out_old).contains(t));
                    assert(views(input@).take(k as int).contains(t));
                    let j = choose|j: int|
                        0 <= j < k as int && #[trigger] views(input@).take(k as int)[j] == t;
                    assert(views(input@).take(k + 1)[j] == t);
                }
            }
            assert forall|t: Seq<u8>| views(input@).take(k + 1).contains(t) implies #[trigger] views(
                out@,
            ).contains(t) by {
                let j = choose|j: int| 0 <= j < k + 1 && #[trigger] views(input@).take(k + 1)[j] == t;
                if j < k as int {
                    assert(views(input@).take(k as int)[j] == t);
                    assert(views(out_old).contains(t));
                    if !is_dup {
                        let i = choose|i: int|
                            0 <= i < views(out_old).len() && #[trigger] views(out_old)[i] == t;
                        assert(views(out@)[i] == t);
                    }
                } else {
                    assert(t == cur);
                    if is_dup {
                        assert(views(out@).contains(cur));
                    } else {
                        assert(views(out@).last() == cur);
                    }
                }
            }
        }
        k = k + 1;
    }
    proof {
        assert(views(input@).take(input@.len() as int) =~= views(input@));
    }
    out
}

/// The original names of a class list, in order.
pub open spec fn original_names(cs: Seq<Class>) -> Seq<Seq<u8>> {
    cs.map_values(|c: Class| c.original_name@)
}

/// Every class selector of a scanned document, deduplicated and sorted,
/// each paired with its renamed form under the given pattern and digest.
/// The rewrite pipeline and this enumeration rename identically: both go
/// through the same pattern application.
pub fn get_classes(
    s: &[u8],
    frags: &Vec<CssFragment>,
    hash: &[u8],
    pattern: &ClassNamePattern,
) -> (r: Vec<Class>)
    requires
        frags_in(frags@, 0, s@.len() as int),
        s@.len() <= usize::MAX,
    ensures
        strictly_sorted(original_names(r@)),
        forall|k: int|
            0 <= k < r@.len() ==> #[trigger] r@[k].hashed_name@ == apply_spec(
                pattern.parts@,
                r@[k].original_name@,
                hash@,
            ),
        forall|t: Seq<u8>|
            #[trigger] original_names(r@).contains(t) <==> class_texts(s@, frags@).contains(t),
{
    broadcast use vstd::seq_lib::group_to_multiset_ensures;
    broadcast use vstd::multiset::group_multiset_axioms;

    let texts = gather_class_texts(s, frags);
    let ghost texts_view = views(texts@);
    let sorted = sort_names(texts);
    proof {
        assert forall|t: Seq<u8>| #[trigger] views(sorted@).contains(t) implies texts_view.contains(
            t,
        ) by {
            vstd::seq_lib::to_multiset_contains(views(sorted@), t);
            vstd::seq_lib::to_multiset_contains(texts_view, t);
        }
        assert forall|t: Seq<u8>| texts_view.contains(t) implies #[trigger] views(
            sorted@,
        ).contains(t) by {
            vstd::seq_lib::to_multiset_contains(views(sorted@), t);
            vstd::seq_lib::to_multiset_contains(texts_view, t);
        }
    }
    let mut uniq = dedup_sorted(sorted);
    let ghost uniq0 = views(uniq@);
    let mut out: Vec<Class> = Vec::new();
    while uniq.len() > 0
        invariant
            views(uniq@) =~= uniq0.skip(out@.len() as int),
            out@.len() <= uniq0.len(),
            forall|k: int|
                0 <= k < out@.len() ==> #[trigger] out@[k].original_name@ == uniq0[k]
                    && out@[k].hashed_name@ == apply_spec(pattern.parts@, uniq0[k], hash@),
        decreases uniq@.len(),
    {
        let ghost out_len = out@.len() as int;
        let ghost pre = views(uniq@);
        let name = uniq.remove(0);
        proof {
            assert(pre =~= uniq0.skip(out_len));
            assert(pre.len() == uniq0.len() - out_len);
            assert(name@ == pre[0]);
            assert(pre[0] == uniq0[out_len]);
            assert(views(uniq@) =~= pre.skip(1));
            assert(pre.skip(1) =~= uniq0.skip(out_len + 1));
        }
        let hashed = pattern.apply(name.as_slice(), hash);
        out.push(Class { original_name: name, hashed_name: hashed });
    }
    proof {
        assert(original_names(out@) =~= uniq0);
    }
    out
}

} // verus!

