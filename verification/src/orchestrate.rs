//! The orchestrator: run the rewrite pipeline over every selected file
//! of a project, refuse digest collisions across the whole result set,
//! order the results deterministically, and lay out the output
//! artifacts — one concatenated stylesheet, or a directory of per-file
//! outputs with an index that imports each one.
use vstd::prelude::*;

use crate::bytes::B_NL;
use crate::bytes::bytes_eq;
use crate::bytes::concat_map;
use crate::bytes::copy_bytes;
use crate::bytes::lemma_concat_map_take_snoc;
use crate::bytes::lemma_lex_antisym;
use crate::bytes::lemma_lex_total;
use crate::bytes::lemma_lex_trans;
use crate::bytes::lex_le;
use crate::bytes::push_bytes;
use crate::config::Config;
use crate::hash::digest_spec;
use crate::hash::make_hash;
use crate::hash::normalize_path;
use crate::hash::normalized;
use crate::parse::scan;
use crate::parse::parse_css;
use crate::paths::extension_spec;
use crate::paths::file_name;
use crate::paths::file_name_spec;
use crate::paths::has_scss_extension;
use crate::paths::out_ext_spec;
use crate::paths::out_file_name;
use crate::paths::out_name_spec;
use crate::paths::scss_ext;
use crate::pattern::Fragment;
use crate::pattern::apply_spec;
use crate::rewrite::class_texts;
use crate::rewrite::get_classes;
use crate::rewrite::original_names;
use crate::rewrite::rewrite_css;
use crate::rewrite::rewrite_spec;
use crate::rewrite::strictly_sorted;
use crate::rewrite::Class;

verus! {

/// One rewritten file: its normalized project-relative path, its
/// digest, and the rewritten text.
#[derive(Clone, Debug, PartialEq)]
pub struct ModifyCssResult {
    pub path: Vec<u8>,
    pub hash: Vec<u8>,
    pub contents: Vec<u8>,
}

/// One input file: its project-relative path and its raw text.
#[derive(Clone, Debug, PartialEq)]
pub struct SourceFile {
    pub rel_path: Vec<u8>,
    pub contents: Vec<u8>,
}

/// One generated file of the output directory.
#[derive(Clone, Debug, PartialEq)]
pub struct OutputFile {
    pub name: Vec<u8>,
    pub contents: Vec<u8>,
}

/// Everything one orchestration pass materializes.
#[derive(Clone, Debug, PartialEq)]
pub struct RunOutput {
    pub results: Vec<ModifyCssResult>,
    pub single_file: Option<Vec<u8>>,
    pub dir_files: Option<Vec<OutputFile>>,
    pub index_file: Option<Vec<u8>>,
}

/// Why an orchestration pass failed.
#[derive(Clone, Debug, PartialEq)]
pub enum RunError {
    /// A stylesheet could not be parsed, at this byte offset.
    Parse { path: Vec<u8>, pos: usize },
    /// Two files digest to the same value; raising the configured hash
    /// length is the remedy.
    Collision { path_a: Vec<u8>, path_b: Vec<u8>, hash: Vec<u8> },
}

/// The document a grammatical source rewrites to: its scanned fragments
/// spliced with renamed classes and unwrapped global escapes.
pub open spec fn rewritten_doc(src: Seq<u8>, parts: Seq<Fragment>, hash: Seq<u8>) -> Seq<u8> {
    rewrite_spec(src, scan(src)->0, parts, hash)
}

/// The exact result one file produces: the normalized relative path,
/// the digest of that path, and the rewrite of the file's scan under
/// that digest.
pub open spec fn expected_result(f: SourceFile, hash_len: int, parts: Seq<Fragment>) -> (
    Seq<u8>,
    Seq<u8>,
    Seq<u8>,
) {
    (
        normalized(f.rel_path@),
        digest_spec(f.rel_path@, hash_len),
        rewritten_doc(f.contents@, parts, digest_spec(f.rel_path@, hash_len)),
    )
}

/// Rewrite one file's text: digest its relative path, scan the text,
/// and splice the renamed classes in.  A text the grammar refuses fails
/// with the file's normalized path and the offset where matching broke.
pub fn modify_css(rel_path: &[u8], contents: &[u8], config: &Config) -> (r: Result<
    ModifyCssResult,
    RunError,
>)
    ensures
        r is Ok <==> scan(contents@) is Some,
        r is Ok ==> ({
            let res = r->Ok_0;
            &&& res.path@ == normalized(rel_path@)
            &&& res.hash@ == digest_spec(rel_path@, config.hash_len as int)
            &&& res.contents@ == rewritten_doc(
                contents@,
                config.class_name_pattern.parts@,
                digest_spec(rel_path@, config.hash_len as int),
            )
        }),
        r is Err ==> (r->Err_0 matches RunError::Parse { path, pos } && path@ == normalized(
            rel_path@,
        )),
{
    let digest = make_hash(rel_path, config.hash_len);
    let frags = match parse_css(contents) {
        Ok(f) => f,
        Err(e) => {
            return Err(RunError::Parse { path: normalize_path(rel_path), pos: e.pos });
        },
    };
    let n = contents.len();
    proof {
        assert(contents@.len() <= usize::MAX);
    }
    let new_contents = rewrite_css(contents, &frags, digest.as_slice(), &config.class_name_pattern);
    let path = normalize_path(rel_path);
    proof {
        assert(frags@ == scan(contents@)->0);
        assert(new_contents@ == rewrite_spec(
            contents@,
            frags@,
            config.class_name_pattern.parts@,
            digest@,
        ));
    }
    Ok(ModifyCssResult { path, hash: digest, contents: new_contents })
}

/// The enumeration handed to code-generation tooling: one file's digest
/// and its deduplicated, sorted list of class names, each paired with
/// the renamed form the rewrite pipeline would splice in — both go
/// through the same pattern application, so the two never disagree.
pub fn file_classes(rel_path: &[u8], contents: &[u8], config: &Config) -> (r: Result<
    (Vec<u8>, Vec<Class>),
    RunError,
>)
    ensures
        r is Ok <==> scan(contents@) is Some,
        r is Ok ==> ({
            let (digest, classes) = r->Ok_0;
            &&& digest@ == digest_spec(rel_path@, config.hash_len as int)
            &&& strictly_sorted(original_names(classes@))
            &&& (forall|k: int|
                0 <= k < classes@.len() ==> (#[trigger] classes@[k]).hashed_name@ == apply_spec(
                    config.class_name_pattern.parts@,
                    classes@[k].original_name@,
                    digest@,
                ))
            &&& (forall|t: Seq<u8>|
                #[trigger] original_names(classes@).contains(t) <==> class_texts(
                    contents@,
                    scan(contents@)->0,
                ).contains(t))
        }),
        r is Err ==> (r->Err_0 matches RunError::Parse { path, pos } && path@ == normalized(
            rel_path@,
        )),
{
    let digest = make_hash(rel_path, config.hash_len);
    let frags = match parse_css(contents) {
        Ok(f) => f,
        Err(e) => {
            return Err(RunError::Parse { path: normalize_path(rel_path), pos: e.pos });
        },
    };
    let n = contents.len();
    proof {
        assert(contents@.len() <= usize::MAX);
    }
    let classes = get_classes(contents, &frags, digest.as_slice(), &config.class_name_pattern);
    proof {
        assert(frags@ == scan(contents@)->0);
    }
    Ok((digest, classes))
}

/// No two results share a digest.
pub open spec fn hashes_distinct(rs: Seq<ModifyCssResult>) -> bool {
    forall|i: int, j: int|
        0 <= i < j < rs.len() ==> (#[trigger] rs[i].hash@) != (#[trigger] rs[j].hash@)
}

/// Verify that digests are pairwise distinct across the whole result
/// set; two files that digest alike would silently merge their class
/// namespaces, so a collision names both files and stops the run.
pub fn check_collisions(results: &Vec<ModifyCssResult>) -> (r: Result<(), RunError>)
    ensures
        r is Ok <==> hashes_distinct(results@),
        r is Err ==> (r->Err_0 matches RunError::Collision { path_a, path_b, hash } && exists|
            i: int,
            j: int,
        |
            0 <= i < j < results@.len() && (#[trigger] results@[i].hash@) == (
            #[trigger] results@[j].hash@) && path_a@ == results@[i].path@ && path_b@
                == results@[j].path@ && hash@ == results@[i].hash@),
{
    let n = results.len();
    let mut i: usize = 0;
    while i < n
        invariant
            i <= n == results@.len(),
            forall|a: int, b: int|
                0 <= a < b < results@.len() && a < i ==> (#[trigger] results@[a].hash@) != (
                #[trigger] results@[b].hash@),
        decreases n - i,
    {
        let mut j: usize = i + 1;
        while j < n
            invariant
                i < j <= n == results@.len(),
                forall|b: int|
                    i < b < j ==> (#[trigger] results@[b].hash@) != results@[i as int].hash@,
            decreases n - j,
        {
            if bytes_eq(results[i].hash.as_slice(), results[j].hash.as_slice()) {
                let e = RunError::Collision {
                    path_a: copy_bytes(results[i].path.as_slice()),
                    path_b: copy_bytes(results[j].path.as_slice()),
                    hash: copy_bytes(results[i].hash.as_slice()),
                };
                proof {
                    assert(results@[i as int].hash@ == results@[j as int].hash@);
                }
                return Err(e);
            }
            j = j + 1;
        }
        i = i + 1;
    }
    Ok(())
}

/// The deterministic result order: by file-name component first, then by
/// the whole normalized path.
pub open spec fn key_le(pa: Seq<u8>, pb: Seq<u8>) -> bool {
    if file_name_spec(pa) == file_name_spec(pb) {
        lex_le(pa, pb)
    } else {
        lex_le(file_name_spec(pa), file_name_spec(pb))
    }
}

proof fn lemma_key_total(pa: Seq<u8>, pb: Seq<u8>)
    ensures
        key_le(pa, pb) || key_le(pb, pa),
{
    lemma_lex_total(pa, pb);
    lemma_lex_total(file_name_spec(pa), file_name_spec(pb));
}

proof fn lemma_key_trans(pa: Seq<u8>, pb: Seq<u8>, pc: Seq<u8>)
    requires
        key_le(pa, pb),
        key_le(pb, pc),
    ensures
        key_le(pa, pc),
{
    let fa = file_name_spec(pa);
    let fb = file_name_spec(pb);
    let fc = file_name_spec(pc);
    if fa == fb && fb == fc {
        lemma_lex_trans(pa, pb, pc);
    } else if fa == fb {
        // key order goes by names, and fa == fb
    } else if fb == fc {
    } else {
        lemma_lex_trans(fa, fb, fc);
        if fa == fc {
            lemma_lex_antisym(fa, fb);
        }
    }
}

/// Decide `key_le` on two results.
fn result_le(a: &ModifyCssResult, b: &ModifyCssResult) -> (r: bool)
    ensures
        r == key_le(a.path@, b.path@),
{
    let fa = file_name(a.path.as_slice());
    let fb = file_name(b.path.as_slice());
    if bytes_eq(fa.as_slice(), fb.as_slice()) {
        crate::bytes::bytes_le(a.path.as_slice(), b.path.as_slice())
    } else {
        crate::bytes::bytes_le(fa.as_slice(), fb.as_slice())
    }
}

/// The views of a result list.
pub open spec fn rviews(l: Seq<ModifyCssResult>) -> Seq<(Seq<u8>, Seq<u8>, Seq<u8>)> {
    l.map_values(|r: ModifyCssResult| (r.path@, r.hash@, r.contents@))
}

/// Results in deterministic order.
pub open spec fn results_sorted(rs: Seq<ModifyCssResult>) -> bool {
    forall|k: int| 0 <= k && k + 1 < rs.len() ==> key_le(#[trigger] rs[k].path@, rs[k + 1].path@)
}

/// Sort results by (file name, normalized path), keeping the multiset
/// of result values: repeatedly move the least remaining result out.
fn sort_results(input: Vec<ModifyCssResult>) -> (r: Vec<ModifyCssResult>)
    ensures
        rviews(r@).to_multiset() == rviews(input@).to_multiset(),
        results_sorted(r@),
{
    broadcast use vstd::seq_lib::group_to_multiset_ensures;
    broadcast use vstd::multiset::group_multiset_axioms;

    let mut rest = input;
    let mut out: Vec<ModifyCssResult> = Vec::new();
    proof {
        assert(rviews(out@) =~= Seq::<(Seq<u8>, Seq<u8>, Seq<u8>)>::empty());
        assert(rviews(out@).to_multiset().add(rviews(rest@).to_multiset()) =~= rviews(
            input@,
        ).to_multiset());
    }
    while rest.len() > 0
        invariant
            rviews(out@).to_multiset().add(rviews(rest@).to_multiset()) == rviews(
                input@,
            ).to_multiset(),
            results_sorted(out@),
            forall|a: int, b: int|
                0 <= a < out@.len() && 0 <= b < rest@.len() ==> key_le(
                    (#[trigger] out@[a]).path@,
                    (#[trigger] rest@[b]).path@,
                ),
        decreases rest@.len(),
    {
        let mut m: usize = 0;
        let mut idx: usize = 1;
        proof {
            lemma_key_total(rest@[0].path@, rest@[0].path@);
        }
        while idx < rest.len()
            invariant
                m < idx <= rest@.len(),
                rest@.len() >= 1,
                forall|j: int|
                    0 <= j < idx ==> key_le(rest@[m as int].path@, (#[trigger] rest@[j]).path@),
            decreases rest@.len() - idx,
        {
            if result_le(&rest[idx], &rest[m]) {
                proof {
                    assert forall|j: int| 0 <= j < idx + 1 implies key_le(
                        rest@[idx as int].path@,
                        (#[trigger] rest@[j]).path@,
                    ) by {
                        if j == idx {
                            lemma_key_total(rest@[idx as int].path@, rest@[idx as int].path@);
                        } else {
                            lemma_key_trans(
                                rest@[idx as int].path@,
                                rest@[m as int].path@,
                                rest@[j].path@,
                            );
                        }
                    }
                }
                m = idx;
            } else {
                proof {
                    lemma_key_total(rest@[m as int].path@, rest@[idx as int].path@);
                }
            }
            idx = idx + 1;
        }
        let ghost rest_old = rest@;
        let ghost out_old = out@;
        let x = rest.remove(m);
        proof {
            assert(rviews(rest@) =~= rviews(rest_old).remove(m as int));
            vstd::seq_lib::to_multiset_remove(rviews(rest_old), m as int);
        }
        out.push(x);
        proof {
            assert(rviews(out@) =~= rviews(out_old).push(rviews(rest_old)[m as int]));
            vstd::seq_lib::to_multiset_build(rviews(out_old), rviews(rest_old)[m as int]);
            vstd::seq_lib::to_multiset_contains(rviews(rest_old), rviews(rest_old)[m as int]);
            assert(rviews(rest_old).contains(rviews(rest_old)[m as int]));
            assert(rviews(out_old).to_multiset().insert(rviews(rest_old)[m as int]).add(
                rviews(rest_old).to_multiset().remove(rviews(rest_old)[m as int]),
            ) =~= rviews(out_old).to_multiset().add(rviews(rest_old).to_multiset()));
            assert forall|k: int|
                0 <= k && k + 1 < out@.len() implies key_le(
                (#[trigger] out@[k]).path@,
                out@[k + 1].path@,
            ) by {
                if k + 1 < out_old.len() {
                    assert(out@[k] == out_old[k]);
                    assert(out@[k + 1] == out_old[k + 1]);
                } else {
                    assert(out@[k] == out_old[k]);
                    assert(out@[k + 1] == x);
                    assert(key_le(out_old[k].path@, rest_old[m as int].path@));
                }
            }
            assert forall|a: int, b: int|
                0 <= a < out@.len() && 0 <= b < rest@.len() implies key_le(
                (#[trigger] out@[a]).path@,
                (#[trigger] rest@[b]).path@,
            ) by {
                let orig_b = if b < m as int {
                    b
                } else {
                    b + 1
                };
                assert(rest@[b] == rest_old[orig_b]);
                if a < out_old.len() {
                    assert(out@[a] == out_old[a]);
                } else {
                    assert(out@[a] == x);
                    assert(key_le(rest_old[m as int].path@, rest_old[orig_b].path@));
                }
            }
        }
    }
    out
}

/// Two newlines: the blank-line separator between concatenated files.
pub open spec fn nlnl() -> Seq<u8> {
    seq![B_NL, B_NL]
}

/// A blank-line-separated block after the first.
pub open spec fn sep_block(c: Seq<u8>) -> Seq<u8> {
    nlnl() + c
}

/// The rewritten texts joined by blank lines.
pub open spec fn join_blank(cs: Seq<Seq<u8>>) -> Seq<u8> {
    if cs.len() == 0 {
        Seq::empty()
    } else {
        cs[0] + concat_map(cs.skip(1), |c: Seq<u8>| sep_block(c))
    }
}

/// The contents of each result, in order.
pub open spec fn contents_of(rs: Seq<ModifyCssResult>) -> Seq<Seq<u8>> {
    rs.map_values(|r: ModifyCssResult| r.contents@)
}

/// The single concatenated output: the prelude (when one is configured
/// and the output file is SCSS), then every rewritten file joined by
/// blank lines.
pub open spec fn single_out_spec(
    rs: Seq<ModifyCssResult>,
    prelude: Option<Vec<u8>>,
    out_path: Seq<u8>,
) -> Seq<u8> {
    (if prelude is Some && extension_spec(out_path) is Some && extension_spec(out_path)->0
        == scss_ext() {
        prelude->0@ + nlnl()
    } else {
        Seq::empty()
    }) + join_blank(contents_of(rs))
}

/// Build the single concatenated output file's text.
fn build_single(results: &Vec<ModifyCssResult>, prelude: &Option<Vec<u8>>, out_path: &[u8]) -> (r:
    Vec<u8>)
    ensures
        r@ == single_out_spec(results@, *prelude, out_path@),
{
    let ghost f = |c: Seq<u8>| sep_block(c);
    let mut out: Vec<u8> = Vec::new();
    if has_scss_extension(out_path) {
        match prelude {
            Some(p) => {
                push_bytes(&mut out, p.as_slice());
                out.push(B_NL);
                out.push(B_NL);
            },
            None => {},
        }
    }
    let ghost head = out@;
    if results.len() == 0 {
        proof {
            assert(out@ =~= single_out_spec(results@, *prelude, out_path@));
        }
        return out;
    }
    push_bytes(&mut out, results[0].contents.as_slice());
    let ghost tailseq = contents_of(results@).skip(1);
    proof {
        assert(concat_map(tailseq.take(0), f) =~= Seq::<u8>::empty());
        assert(out@ =~= head + contents_of(results@)[0] + concat_map(tailseq.take(0), f));
    }
    let mut k: usize = 1;
    while k < results.len()
        invariant
            1 <= k <= results@.len(),
            tailseq == contents_of(results@).skip(1),
            f == (|c: Seq<u8>| sep_block(c)),
            head.len() <= out@.len(),
            out@ == head + contents_of(results@)[0] + concat_map(tailseq.take(k - 1), f),
        decreases results@.len() - k,
    {
        proof {
            lemma_concat_map_take_snoc(tailseq, f, k - 1);
            assert(tailseq[k - 1] == contents_of(results@)[k as int]);
        }
        out.push(B_NL);
        out.push(B_NL);
        push_bytes(&mut out, results[k].contents.as_slice());
        proof {
            assert(out@ =~= head + contents_of(results@)[0] + concat_map(tailseq.take(k as int), f));
        }
        k = k + 1;
    }
    proof {
        assert(tailseq.take(tailseq.len() as int) =~= tailseq);
        assert(out@ =~= single_out_spec(results@, *prelude, out_path@));
    }
    out
}

/// `@use "`
pub open spec fn atuse_open() -> Seq<u8> {
    seq![64u8, 117u8, 115u8, 101u8, 32u8, 34u8]
}

/// `";` and a newline
pub open spec fn atuse_close() -> Seq<u8> {
    seq![34u8, 59u8, B_NL]
}

/// One import line of the index file.
pub open spec fn atuse_line(name: Seq<u8>) -> Seq<u8> {
    atuse_open() + name + atuse_close()
}

/// The generated file names of the results, in order.
pub open spec fn out_names_of(rs: Seq<ModifyCssResult>) -> Seq<Seq<u8>> {
    rs.map_values(|r: ModifyCssResult| out_name_spec(r.path@, r.hash@))
}

/// The index file: one import line per generated file, in order.
pub open spec fn index_spec(names: Seq<Seq<u8>>) -> Seq<u8> {
    concat_map(names, |n: Seq<u8>| atuse_line(n))
}

/// What one generated file holds: the prelude (when configured and the
/// generated file is SCSS), then the rewritten text.
pub open spec fn dir_content_spec(r: ModifyCssResult, prelude: Option<Vec<u8>>) -> Seq<u8> {
    (if prelude is Some && out_ext_spec(r.path@) == scss_ext() {
        prelude->0@ + nlnl()
    } else {
        Seq::empty()
    }) + r.contents@
}

/// Build the per-file outputs and the index for the output directory.
fn build_dir(results: &Vec<ModifyCssResult>, prelude: &Option<Vec<u8>>) -> (r: (
    Vec<OutputFile>,
    Vec<u8>,
))
    ensures
        r.0@.len() == results@.len(),
        forall|k: int|
            0 <= k < results@.len() ==> (#[trigger] r.0@[k]).name@ == out_name_spec(
                results@[k].path@,
                results@[k].hash@,
            ) && r.0@[k].contents@ == dir_content_spec(results@[k], *prelude),
        r.1@ == index_spec(out_names_of(results@)),
{
    let ghost f = |n: Seq<u8>| atuse_line(n);
    let mut files: Vec<OutputFile> = Vec::new();
    let mut index: Vec<u8> = Vec::new();
    let mut k: usize = 0;
    proof {
        assert(concat_map(out_names_of(results@).take(0), f) =~= Seq::<u8>::empty());
        assert(index@ =~= concat_map(out_names_of(results@).take(0), f));
    }
    while k < results.len()
        invariant
            k <= results@.len(),
            f == (|n: Seq<u8>| atuse_line(n)),
            files@.len() == k,
            forall|j: int|
                0 <= j < k ==> (#[trigger] files@[j]).name@ == out_name_spec(
                    results@[j].path@,
                    results@[j].hash@,
                ) && files@[j].contents@ == dir_content_spec(results@[j], *prelude),
            index@ == concat_map(out_names_of(results@).take(k as int), f),
        decreases results@.len() - k,
    {
        let name = out_file_name(results[k].path.as_slice(), results[k].hash.as_slice());
        let mut contents: Vec<u8> = Vec::new();
        let is_scss_out = {
            let ext = crate::paths::extension_of(results[k].path.as_slice());
            let css = crate::paths::css_ext_vec();
            match ext {
                Some(e) => !bytes_eq(e.as_slice(), css.as_slice()),
                None => true,
            }
        };
        if is_scss_out {
            match prelude {
                Some(p) => {
                    push_bytes(&mut contents, p.as_slice());
                    contents.push(B_NL);
                    contents.push(B_NL);
                },
                None => {},
            }
        }
        push_bytes(&mut contents, results[k].contents.as_slice());
        proof {
            assert(contents@ =~= dir_content_spec(results@[k as int], *prelude));
            lemma_concat_map_take_snoc(out_names_of(results@), f, k as int);
            assert(out_names_of(results@)[k as int] == out_name_spec(
                results@[k as int].path@,
                results@[k as int].hash@,
            ));
        }
        index.push(64);
        index.push(117);
        index.push(115);
        index.push(101);
        index.push(32);
        index.push(34);
        push_bytes(&mut index, name.as_slice());
        index.push(34);
        index.push(59);
        index.push(B_NL);
        proof {
            assert(index@ =~= concat_map(out_names_of(results@).take(k + 1), f));
        }
        files.push(OutputFile { name, contents });
        k = k + 1;
    }
    proof {
        assert(out_names_of(results@).take(results@.len() as int) =~= out_names_of(results@));
    }
    (files, index)
}


/// Every input file's text derives from the grammar.
pub open spec fn all_files_scan(files: Seq<SourceFile>) -> bool {
    forall|m: int| 0 <= m < files.len() ==> scan((#[trigger] files[m]).contents@) is Some
}

/// No two input files digest alike at this hash length.
pub open spec fn digests_distinct(files: Seq<SourceFile>, hash_len: int) -> bool {
    forall|i: int, j: int|
        0 <= i < j < files.len() ==> digest_spec((#[trigger] files[i]).rel_path@, hash_len)
            != digest_spec((#[trigger] files[j]).rel_path@, hash_len)
}

/// The exact result views the pass produces, one per input file, in
/// input order.
pub open spec fn expected_results(files: Seq<SourceFile>, hash_len: int, parts: Seq<Fragment>) -> Seq<
    (Seq<u8>, Seq<u8>, Seq<u8>),
> {
    files.map_values(|f: SourceFile| expected_result(f, hash_len, parts))
}

/// A permutation cannot introduce a digest collision: if no two of the
/// triples share a second component, neither do any two of a
/// rearrangement of them.
proof fn lemma_distinct_hashes_preserved(
    a: Seq<(Seq<u8>, Seq<u8>, Seq<u8>)>,
    b: Seq<(Seq<u8>, Seq<u8>, Seq<u8>)>,
)
    requires
        a.to_multiset() == b.to_multiset(),
        forall|i: int, j: int| 0 <= i < j < a.len() ==> (#[trigger] a[i]).1 != (#[trigger] a[j]).1,
    ensures
        forall|i: int, j: int| 0 <= i < j < b.len() ==> (#[trigger] b[i]).1 != (#[trigger] b[j]).1,
{
    broadcast use vstd::seq_lib::group_to_multiset_ensures;
    broadcast use vstd::multiset::group_multiset_axioms;

    assert forall|i: int, j: int| 0 <= i < j < b.len() implies (#[trigger] b[i]).1 != (
    #[trigger] b[j]).1 by {
        if b[i].1 == b[j].1 {
            if b[i] != b[j] {
                vstd::seq_lib::to_multiset_contains(b, b[i]);
                vstd::seq_lib::to_multiset_contains(b, b[j]);
                vstd::seq_lib::to_multiset_contains(a, b[i]);
                vstd::seq_lib::to_multiset_contains(a, b[j]);
                assert(a.contains(b[i]));
                assert(a.contains(b[j]));
                let m1 = choose|m: int| 0 <= m < a.len() && #[trigger] a[m] == b[i];
                let m2 = choose|m: int| 0 <= m < a.len() && #[trigger] a[m] == b[j];
                assert(m1 != m2);
                assert(a[m1].1 == a[m2].1);
                assert(false);
            } else {
                let x = b[i];
                vstd::seq_lib::to_multiset_remove(b, i);
                assert(b.remove(i) =~= b.subrange(0, i) + b.subrange(i + 1, b.len() as int));
                assert(b.remove(i)[j - 1] == x);
                vstd::seq_lib::to_multiset_contains(b.remove(i), x);
                assert(b.remove(i).contains(x));
                assert(b.to_multiset().remove(x).count(x) > 0);
                assert(b.to_multiset().count(x) >= 2);
                assert(a.to_multiset().count(x) >= 2);
                vstd::seq_lib::to_multiset_contains(a, x);
                assert(a.contains(x));
                let m1 = choose|m: int| 0 <= m < a.len() && #[trigger] a[m] == x;
                vstd::seq_lib::to_multiset_remove(a, m1);
                assert(a.to_multiset().remove(x).count(x) >= 1);
                vstd::seq_lib::to_multiset_contains(a.remove(m1), x);
                assert(a.remove(m1).contains(x));
                let m0 = choose|m: int| 0 <= m < a.remove(m1).len() && #[trigger] a.remove(m1)[m]
                    == x;
                assert(a.remove(m1) =~= a.subrange(0, m1) + a.subrange(m1 + 1, a.len() as int));
                let m2 = if m0 < m1 {
                    m0
                } else {
                    m0 + 1
                };
                assert(a[m2] == x);
                assert(m1 != m2);
                assert(a[m1].1 == a[m2].1);
                assert(false);
            }
        }
    }
}

/// One full orchestration pass over the selected files: rewrite each
/// one, refuse digest collisions, order the results by (file name,
/// path), and lay out whichever outputs the configuration asks for.
/// The pass succeeds exactly when every file derives from the grammar
/// and no two files digest alike; then the results are exactly one
/// rewrite per input file, in deterministic order.  On any failure
/// nothing is produced.
pub fn run_pass(files: &Vec<SourceFile>, config: &Config) -> (r: Result<RunOutput, RunError>)
    ensures
        r is Ok <==> all_files_scan(files@) && digests_distinct(files@, config.hash_len as int),
        r is Ok ==> ({
            let out = r->Ok_0;
            &&& out.results@.len() == files@.len()
            &&& results_sorted(out.results@)
            &&& hashes_distinct(out.results@)
            &&& rviews(out.results@).to_multiset() == expected_results(
                files@,
                config.hash_len as int,
                config.class_name_pattern.parts@,
            ).to_multiset()
            &&& (out.single_file is Some <==> config.output_file is Some)
            &&& (out.single_file is Some ==> out.single_file->0@ == single_out_spec(
                out.results@,
                config.scss_prelude,
                config.output_file->0@,
            ))
            &&& (out.dir_files is Some <==> config.output_dir is Some)
            &&& (out.index_file is Some <==> config.output_dir is Some)
            &&& (out.dir_files is Some ==> out.dir_files->0@.len() == out.results@.len())
            &&& (out.dir_files is Some ==> forall|k: int|
                0 <= k < out.results@.len() ==> (#[trigger] out.dir_files->0@[k]).name@
                    == out_name_spec(out.results@[k].path@, out.results@[k].hash@)
                    && out.dir_files->0@[k].contents@ == dir_content_spec(
                    out.results@[k],
                    config.scss_prelude,
                ))
            &&& (out.index_file is Some ==> out.index_file->0@ == index_spec(
                out_names_of(out.results@),
            ))
        }),
        r is Err ==> ({
            ||| (r->Err_0 matches RunError::Parse { path, pos } && exists|m: int|
                0 <= m < files@.len() && !(scan((#[trigger] files@[m]).contents@) is Some) && (
                forall|m2: int|
                    0 <= m2 < m ==> scan((#[trigger] files@[m2]).contents@) is Some) && path@
                    == normalized(files@[m].rel_path@))
            ||| (r->Err_0 matches RunError::Collision { path_a, path_b, hash } && all_files_scan(
                files@,
            ) && exists|i: int, j: int|
                0 <= i < j < files@.len() && digest_spec(
                    (#[trigger] files@[i]).rel_path@,
                    config.hash_len as int,
                ) == digest_spec((#[trigger] files@[j]).rel_path@, config.hash_len as int)
                    && path_a@ == normalized(files@[i].rel_path@) && path_b@ == normalized(
                    files@[j].rel_path@,
                ) && hash@ == digest_spec(files@[i].rel_path@, config.hash_len as int))
        }),
{
    broadcast use vstd::seq_lib::group_to_multiset_ensures;
    broadcast use vstd::multiset::group_multiset_axioms;

    let ghost hl = config.hash_len as int;
    let ghost parts = config.class_name_pattern.parts@;
    let mut results: Vec<ModifyCssResult> = Vec::new();
    let mut k: usize = 0;
    while k < files.len()
        invariant
            k <= files@.len(),
            results@.len() == k,
            hl == config.hash_len as int,
            parts == config.class_name_pattern.parts@,
            forall|m: int| 0 <= m < k ==> scan((#[trigger] files@[m]).contents@) is Some,
            forall|m: int|
                0 <= m < k ==> (#[trigger] rviews(results@)[m]) == expected_result(
                    files@[m],
                    hl,
                    parts,
                ),
        decreases files@.len() - k,
    {
        let ghost pre = results@;
        match modify_css(files[k].rel_path.as_slice(), files[k].contents.as_slice(), config) {
            Ok(res) => {
                results.push(res);
                proof {
                    assert forall|m: int|
                        0 <= m < k + 1 implies (#[trigger] rviews(results@)[m]) == expected_result(
                        files@[m],
                        hl,
                        parts,
                    ) by {
                        if m < k as int {
                            assert(results@[m] == pre[m]);
                            assert(rviews(pre)[m] == expected_result(files@[m], hl, parts));
                        } else {
                            assert(results@[m] == res);
                        }
                    }
                }
            },
            Err(e) => {
                return Err(e);
            },
        }
        k = k + 1;
    }
    proof {
        assert(rviews(results@) =~= expected_results(files@, hl, parts));
    }
    match check_collisions(&results) {
        Ok(()) => {
            proof {
                assert forall|i: int, j: int|
                    0 <= i < j < files@.len() implies digest_spec(
                    (#[trigger] files@[i]).rel_path@,
                    hl,
                ) != digest_spec((#[trigger] files@[j]).rel_path@, hl) by {
                    assert(rviews(results@)[i] == expected_result(files@[i], hl, parts));
                    assert(rviews(results@)[j] == expected_result(files@[j], hl, parts));
                    assert(rviews(results@)[i].1 == results@[i].hash@);
                    assert(rviews(results@)[j].1 == results@[j].hash@);
                }
            }
        },
        Err(e) => {
            proof {
                let (i, j) = choose|i: int, j: int|
                    0 <= i < j < results@.len() && (#[trigger] results@[i].hash@) == (
                    #[trigger] results@[j].hash@) && (e matches RunError::Collision {
                        path_a,
                        path_b,
                        hash,
                    } && path_a@ == results@[i].path@ && path_b@ == results@[j].path@ && hash@
                        == results@[i].hash@);
                assert(rviews(results@)[i] == expected_result(files@[i], hl, parts));
                assert(rviews(results@)[j] == expected_result(files@[j], hl, parts));
                assert(rviews(results@)[i].0 == results@[i].path@);
                assert(rviews(results@)[j].0 == results@[j].path@);
                assert(rviews(results@)[i].1 == results@[i].hash@);
                assert(rviews(results@)[j].1 == results@[j].hash@);
                assert(results@[i].path@ == normalized(files@[i].rel_path@));
                assert(results@[j].path@ == normalized(files@[j].rel_path@));
                assert(results@[i].hash@ == digest_spec(files@[i].rel_path@, hl));
                assert(results@[j].hash@ == digest_spec(files@[j].rel_path@, hl));
            }
            return Err(e);
        },
    }
    let ghost pre_sort = rviews(results@);
    let sorted = sort_results(results);
    proof {
        vstd::seq_lib::to_multiset_len(rviews(sorted@));
        vstd::seq_lib::to_multiset_len(pre_sort);
        assert(rviews(sorted@).len() == sorted@.len());
        assert(pre_sort.len() == files@.len());
        assert(sorted@.len() == files@.len());
        lemma_distinct_hashes_preserved(pre_sort, rviews(sorted@));
        assert forall|i: int, j: int|
            0 <= i < j < sorted@.len() implies (#[trigger] sorted@[i].hash@) != (
        #[trigger] sorted@[j].hash@) by {
            assert(rviews(sorted@)[i].1 == sorted@[i].hash@);
            assert(rviews(sorted@)[j].1 == sorted@[j].hash@);
        }
        assert forall|i: int, j: int|
            0 <= i < j < pre_sort.len() implies (#[trigger] pre_sort[i]).1 != (
        #[trigger] pre_sort[j]).1 by {
            assert(pre_sort[i].1 == results@[i].hash@);
            assert(pre_sort[j].1 == results@[j].hash@);
        }
    }
    let single_file = match &config.output_file {
        Some(p) => Some(build_single(&sorted, &config.scss_prelude, p.as_slice())),
        None => None,
    };
    let (dir_files, index_file) = match &config.output_dir {
        Some(_) => {
            let (d, idx) = build_dir(&sorted, &config.scss_prelude);
            (Some(d), Some(idx))
        },
        None => (None, None),
    };
    Ok(RunOutput { results: sorted, single_file, dir_files, index_file })
}

} // verus!

