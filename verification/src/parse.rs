//! The fragment scanner: a recursive walker over stylesheet text that
//! yields every class selector and `:global(...)` escape as a byte span
//! into the original buffer, while skipping comments, quoted strings,
//! nested blocks and at-rules.
//!
//! All positions are byte offsets.  A parse either consumes a prefix and
//! reports the new cursor, refuses locally (`Backtrack`, the caller may
//! try another rule at the same position), or fails definitively
//! (`Cut`, with the position where matching broke down).
use vstd::prelude::*;

use crate::bytes::B_AT;
use crate::bytes::B_BACKSLASH;
use crate::bytes::B_COLON;
use crate::bytes::B_DOLLAR;
use crate::bytes::B_DOT;
use crate::bytes::B_DQUOTE;
use crate::bytes::B_LBRACE;
use crate::bytes::B_LPAREN;
use crate::bytes::B_NL;
use crate::bytes::B_RBRACE;
use crate::bytes::B_RPAREN;
use crate::bytes::B_SEMI;
use crate::bytes::B_SLASH;
use crate::bytes::B_SQUOTE;
use crate::bytes::B_STAR;
use crate::bytes::byte_in;
use crate::bytes::ident_byte;
use crate::bytes::ident_start_byte;
use crate::bytes::is_ident_byte;
use crate::bytes::is_ident_start_byte;
use crate::bytes::is_identifier;
use crate::bytes::is_space_byte;
use crate::bytes::space_byte;
use crate::bytes::starts_with_at;

verus! {

/// A byte range `[start, end)` into the scanned buffer.
#[derive(Clone, Copy, Debug, PartialEq, Eq, Structural)]
pub struct Span {
    pub start: usize,
    pub end: usize,
}

/// ```text
///         v----v inner span
/// :global(.class)
/// ^-------------^ outer span
/// ```
#[derive(Clone, Copy, Debug, PartialEq, Eq, Structural)]
pub struct Global {
    pub inner: Span,
    pub outer: Span,
}

/// A located fragment of interest: the identifier of a class selector
/// (without its leading dot), or a whole global escape.
#[derive(Clone, Copy, Debug, PartialEq, Eq, Structural)]
pub enum CssFragment {
    Class(Span),
    Global(Global),
}

/// How a grammar rule failed at some position.
#[derive(Clone, Copy, Debug, PartialEq, Eq, Structural)]
pub enum ParseErr {
    /// The rule does not apply here; an enclosing choice may try another.
    Backtrack,
    /// The input is malformed; the position where matching broke down.
    Cut(usize),
}

/// Parsing failed at byte offset `pos`.
#[derive(Clone, Copy, Debug, PartialEq, Eq, Structural)]
pub struct CssParseError {
    pub pos: usize,
}

/// First byte of the region a fragment replaces.
pub open spec fn frag_lo(f: CssFragment) -> int {
    match f {
        CssFragment::Class(sp) => sp.start as int,
        CssFragment::Global(g) => g.outer.start as int,
    }
}

/// One past the last byte of the region a fragment replaces.
pub open spec fn frag_hi(f: CssFragment) -> int {
    match f {
        CssFragment::Class(sp) => sp.end as int,
        CssFragment::Global(g) => g.outer.end as int,
    }
}

/// A single fragment's spans are non-empty and properly nested.
pub open spec fn frag_wf(f: CssFragment) -> bool {
    match f {
        CssFragment::Class(sp) => sp.start < sp.end,
        CssFragment::Global(g) => g.outer.start <= g.inner.start && g.inner.start <= g.inner.end
            && g.inner.end <= g.outer.end && g.outer.start < g.outer.end,
    }
}

/// The invariant every scan result obeys: each fragment lies inside
/// `[lo, hi)`, spans are non-empty, and consecutive fragments do not
/// overlap, in strictly increasing document order.  A rewrite pass can
/// therefore splice replacements with a single forward cursor.
pub open spec fn frags_in(fs: Seq<CssFragment>, lo: int, hi: int) -> bool {
    (forall|k: int|
        0 <= k < fs.len() ==> frag_wf(#[trigger] fs[k]) && lo <= frag_lo(fs[k]) && frag_hi(fs[k])
            <= hi) && (forall|k: int|
        0 <= k && k + 1 < fs.len() ==> frag_hi(#[trigger] fs[k]) <= frag_lo(fs[k + 1]))
}

pub proof fn lemma_frags_widen(fs: Seq<CssFragment>, lo: int, hi: int, lo2: int, hi2: int)
    requires
        frags_in(fs, lo, hi),
        lo2 <= lo,
        hi <= hi2,
    ensures
        frags_in(fs, lo2, hi2),
{
}

pub proof fn lemma_frags_concat(a: Seq<CssFragment>, b: Seq<CssFragment>, lo: int, m: int, hi: int)
    requires
        frags_in(a, lo, m),
        frags_in(b, m, hi),
        lo <= m <= hi,
    ensures
        frags_in(a + b, lo, hi),
{
    let c = a + b;
    assert forall|k: int| 0 <= k < c.len() implies frag_wf(#[trigger] c[k]) && lo <= frag_lo(c[k])
        && frag_hi(c[k]) <= hi by {
        if k < a.len() {
            assert(c[k] == a[k]);
        } else {
            assert(c[k] == b[k - a.len()]);
        }
    }
    assert forall|k: int| 0 <= k && k + 1 < c.len() implies frag_hi(c[k]) <= frag_lo(
        #[trigger] c[k + 1],
    ) by {
        if k + 1 < a.len() {
            assert(c[k] == a[k]);
            assert(c[k + 1] == a[k + 1]);
        } else if k + 1 == a.len() {
            assert(c[k] == a[k]);
            assert(c[k + 1] == b[0]);
            assert(frag_hi(a[k]) <= m);
            assert(frag_wf(b[0]) && m <= frag_lo(b[0]));
        } else {
            let kb = k - a.len();
            assert(c[k] == b[kb]);
            assert(c[k + 1] == b[kb + 1]);
            assert(frag_hi(b[kb]) <= frag_lo(b[kb + 1]));
        }
    }
}

pub proof fn lemma_frags_push(fs: Seq<CssFragment>, lo: int, hi: int, f: CssFragment, hi2: int)
    requires
        frags_in(fs, lo, hi),
        frag_wf(f),
        lo <= hi,
        hi <= frag_lo(f),
        frag_hi(f) <= hi2,
    ensures
        frags_in(fs.push(f), lo, hi2),
{
    let c = fs.push(f);
    assert forall|k: int| 0 <= k < c.len() implies frag_wf(#[trigger] c[k]) && lo <= frag_lo(c[k])
        && frag_hi(c[k]) <= hi2 by {
        if k < fs.len() {
            assert(c[k] == fs[k]);
        } else {
            assert(c[k] == f);
        }
    }
    assert forall|k: int| 0 <= k && k + 1 < c.len() implies frag_hi(c[k]) <= frag_lo(
        #[trigger] c[k + 1],
    ) by {
        if k + 1 < fs.len() {
            assert(c[k] == fs[k]);
            assert(c[k + 1] == fs[k + 1]);
        } else {
            assert(c[k] == fs[k]);
            assert(c[k + 1] == f);
            assert(frag_hi(fs[k]) <= hi);
        }
    }
}

/// The literal `:global(`.
pub open spec fn global_open() -> Seq<u8> {
    seq![B_COLON, 103u8, 108u8, 111u8, 98u8, 97u8, 108u8, B_LPAREN]
}

/// A fragment points at real syntax of the source: a class span covers
/// identifier text right after a literal dot, and a global escape's
/// outer span wraps its inner span in literal `:global(` and `)`.
pub open spec fn frag_matches_source(s: Seq<u8>, f: CssFragment) -> bool {
    match f {
        CssFragment::Class(sp) => 1 <= sp.start && sp.end <= s.len() && s[sp.start - 1] == B_DOT
            && is_identifier(s.subrange(sp.start as int, sp.end as int)),
        CssFragment::Global(g) => g.inner.start == g.outer.start + 8 && g.inner.end + 1
            == g.outer.end && g.outer.end <= s.len() && s.subrange(
            g.outer.start as int,
            g.inner.start as int,
        ) == global_open() && s[g.outer.end - 1] == B_RPAREN,
    }
}

/// The well-formedness a scan establishes: ordered, non-overlapping
/// spans that each point at real class or global-escape syntax.
pub open spec fn frags_ok(s: Seq<u8>, fs: Seq<CssFragment>, lo: int, hi: int) -> bool {
    frags_in(fs, lo, hi) && forall|k: int|
        0 <= k < fs.len() ==> frag_matches_source(s, #[trigger] fs[k])
}

pub proof fn lemma_frags_ok_widen(
    s: Seq<u8>,
    fs: Seq<CssFragment>,
    lo: int,
    hi: int,
    lo2: int,
    hi2: int,
)
    requires
        frags_ok(s, fs, lo, hi),
        lo2 <= lo,
        hi <= hi2,
    ensures
        frags_ok(s, fs, lo2, hi2),
{
    lemma_frags_widen(fs, lo, hi, lo2, hi2);
}

pub proof fn lemma_frags_ok_concat(
    s: Seq<u8>,
    a: Seq<CssFragment>,
    b: Seq<CssFragment>,
    lo: int,
    m: int,
    hi: int,
)
    requires
        frags_ok(s, a, lo, m),
        frags_ok(s, b, m, hi),
        lo <= m <= hi,
    ensures
        frags_ok(s, a + b, lo, hi),
{
    lemma_frags_concat(a, b, lo, m, hi);
    assert forall|k: int| 0 <= k < (a + b).len() implies frag_matches_source(
        s,
        #[trigger] (a + b)[k],
    ) by {
        if k < a.len() {
            assert((a + b)[k] == a[k]);
        } else {
            assert((a + b)[k] == b[k - a.len()]);
        }
    }
}

pub proof fn lemma_frags_ok_push(
    s: Seq<u8>,
    fs: Seq<CssFragment>,
    lo: int,
    hi: int,
    f: CssFragment,
    hi2: int,
)
    requires
        frags_ok(s, fs, lo, hi),
        frag_wf(f),
        frag_matches_source(s, f),
        lo <= hi,
        hi <= frag_lo(f),
        frag_hi(f) <= hi2,
    ensures
        frags_ok(s, fs.push(f), lo, hi2),
{
    lemma_frags_push(fs, lo, hi, f, hi2);
    assert forall|k: int| 0 <= k < fs.push(f).len() implies frag_matches_source(
        s,
        #[trigger] fs.push(f)[k],
    ) by {
        if k < fs.len() {
            assert(fs.push(f)[k] == fs[k]);
        } else {
            assert(fs.push(f)[k] == f);
        }
    }
}

/// Scanner functions work on a cursor that stays within the buffer.
pub open spec fn cursor_ok(s: Seq<u8>, i: int) -> bool {
    0 <= i <= s.len() <= usize::MAX
}

// ---------------------------------------------------------------------
// The scanner's specification: each grammar rule is defined once more as
// a function of the input alone.  The executable rules below are proved
// equal to these definitions, so the contracts pin exactly when a rule
// matches, how far it consumes, and which fragments it yields.
// ---------------------------------------------------------------------

/// What a cursor-only rule does at a position: match up to a new cursor,
/// refuse locally, or fail definitively at a position.
pub enum LexOut {
    Match(int),
    Miss,
    Fail(int),
}

/// What a fragment-yielding rule does at a position.
pub enum ScanOut {
    Match(Seq<CssFragment>, int),
    Miss,
    Fail(int),
}

/// What the class-token rule does at a position.
pub enum SpanOut {
    Match(Span, int),
    Miss,
}

/// What the global-escape rule does at a position.
pub enum GlobalOut {
    Match(Global, int),
    Miss,
    Fail(int),
}

/// An executable cursor-only result agrees with its specification.
pub open spec fn lex_matches(r: Result<usize, ParseErr>, o: LexOut) -> bool {
    match r {
        Result::Ok(j) => o == LexOut::Match(j as int),
        Result::Err(e) => match e {
            ParseErr::Backtrack => o is Miss,
            ParseErr::Cut(p) => o == LexOut::Fail(p as int),
        },
    }
}

/// An executable fragment-yielding result agrees with its specification.
pub open spec fn scan_out_matches(r: Result<(Vec<CssFragment>, usize), ParseErr>, o: ScanOut) -> bool {
    match r {
        Result::Ok((v, j)) => o == ScanOut::Match(v@, j as int),
        Result::Err(e) => match e {
            ParseErr::Backtrack => o is Miss,
            ParseErr::Cut(p) => o == ScanOut::Fail(p as int),
        },
    }
}

/// End of the line starting at `j`: the next newline, or the end of the
/// input.
pub open spec fn eol_end(s: Seq<u8>, j: int) -> int
    decreases s.len() - j when 0 <= j <= s.len()
{
    if j < s.len() && s[j] != B_NL {
        eol_end(s, j + 1)
    } else {
        j
    }
}

pub proof fn lemma_eol_end(s: Seq<u8>, j: int)
    requires
        0 <= j <= s.len(),
    ensures
        j <= eol_end(s, j) <= s.len(),
    decreases s.len() - j,
{
    if j < s.len() && s[j] != B_NL {
        lemma_eol_end(s, j + 1);
    }
}

/// Scan for the closing `*/` of a block comment that began at `start`.
pub open spec fn bc_scan(s: Seq<u8>, j: int, start: int) -> LexOut
    decreases s.len() - j when 0 <= j <= s.len()
{
    if j < s.len() && s[j] == B_STAR && j + 1 < s.len() && s[j + 1] == B_SLASH {
        LexOut::Match(j + 2)
    } else if j < s.len() {
        bc_scan(s, j + 1, start)
    } else {
        LexOut::Fail(start)
    }
}

pub proof fn lemma_bc_scan(s: Seq<u8>, j: int, start: int)
    requires
        0 <= j <= s.len(),
    ensures
        bc_scan(s, j, start) is Match ==> j < bc_scan(s, j, start)->Match_0 <= s.len(),
    decreases s.len() - j,
{
    if !(j < s.len() && s[j] == B_STAR && j + 1 < s.len() && s[j + 1] == B_SLASH) && j < s.len() {
        lemma_bc_scan(s, j + 1, start);
    }
}

/// A `//` comment at `i`.
pub open spec fn lex_line_comment(s: Seq<u8>, i: int) -> LexOut {
    if i + 1 < s.len() && s[i] == B_SLASH && s[i + 1] == B_SLASH {
        LexOut::Match(eol_end(s, i + 2))
    } else {
        LexOut::Miss
    }
}

pub proof fn lemma_lex_line_comment(s: Seq<u8>, i: int)
    requires
        0 <= i <= s.len(),
    ensures
        lex_line_comment(s, i) is Match ==> i < lex_line_comment(s, i)->Match_0 <= s.len(),
{
    if i + 1 < s.len() && s[i] == B_SLASH && s[i + 1] == B_SLASH {
        lemma_eol_end(s, i + 2);
    }
}

/// A `/* ... */` comment at `i`; unterminated comments fail at `i`.
pub open spec fn lex_block_comment(s: Seq<u8>, i: int) -> LexOut {
    if i + 1 < s.len() && s[i] == B_SLASH && s[i + 1] == B_STAR {
        bc_scan(s, i + 2, i)
    } else {
        LexOut::Miss
    }
}

pub proof fn lemma_lex_block_comment(s: Seq<u8>, i: int)
    requires
        0 <= i <= s.len(),
    ensures
        lex_block_comment(s, i) is Match ==> i < lex_block_comment(s, i)->Match_0 <= s.len(),
{
    if i + 1 < s.len() && s[i] == B_SLASH && s[i + 1] == B_STAR {
        lemma_bc_scan(s, i + 2, i);
    }
}

/// Scan the interior of a quoted string for its closing quote, skipping
/// backslash-escaped quotes; an unterminated string fails at the end of
/// the input.
pub open spec fn sq_scan(s: Seq<u8>, j: int, q: u8) -> LexOut
    decreases s.len() - j when 0 <= j <= s.len()
{
    if j < s.len() && s[j] == q {
        LexOut::Match(j + 1)
    } else if j < s.len() && s[j] == B_BACKSLASH && j + 1 < s.len() && s[j + 1] == q {
        sq_scan(s, j + 2, q)
    } else if j < s.len() {
        sq_scan(s, j + 1, q)
    } else {
        LexOut::Fail(j)
    }
}

pub proof fn lemma_sq_scan(s: Seq<u8>, j: int, q: u8)
    requires
        0 <= j <= s.len(),
    ensures
        sq_scan(s, j, q) is Match ==> j < sq_scan(s, j, q)->Match_0 <= s.len(),
    decreases s.len() - j,
{
    if j < s.len() && s[j] == q {
    } else if j < s.len() && s[j] == B_BACKSLASH && j + 1 < s.len() && s[j + 1] == q {
        lemma_sq_scan(s, j + 2, q);
    } else if j < s.len() {
        lemma_sq_scan(s, j + 1, q);
    }
}

/// A string quoted by `q` at `i`.
pub open spec fn lex_string_quoted(s: Seq<u8>, i: int, q: u8) -> LexOut {
    if i < s.len() && s[i] == q {
        sq_scan(s, i + 1, q)
    } else {
        LexOut::Miss
    }
}

/// A double- or single-quoted string at `i`.
pub open spec fn lex_string(s: Seq<u8>, i: int) -> LexOut {
    match lex_string_quoted(s, i, B_DQUOTE) {
        LexOut::Miss => lex_string_quoted(s, i, B_SQUOTE),
        o => o,
    }
}

pub proof fn lemma_lex_string(s: Seq<u8>, i: int)
    requires
        0 <= i <= s.len(),
    ensures
        lex_string(s, i) is Match ==> i < lex_string(s, i)->Match_0 <= s.len(),
{
    if i < s.len() {
        lemma_sq_scan(s, i + 1, B_DQUOTE);
        lemma_sq_scan(s, i + 1, B_SQUOTE);
    }
}

/// End of the identifier-character run starting at `j`.
pub open spec fn ident_end(s: Seq<u8>, j: int) -> int
    decreases s.len() - j when 0 <= j <= s.len()
{
    if j < s.len() && is_ident_byte(s[j]) {
        ident_end(s, j + 1)
    } else {
        j
    }
}

pub proof fn lemma_ident_end(s: Seq<u8>, j: int)
    requires
        0 <= j <= s.len(),
    ensures
        j <= ident_end(s, j) <= s.len(),
    decreases s.len() - j,
{
    if j < s.len() && is_ident_byte(s[j]) {
        lemma_ident_end(s, j + 1);
    }
}

/// An identifier at `i`.
pub open spec fn lex_identifier(s: Seq<u8>, i: int) -> LexOut {
    if i < s.len() && is_ident_start_byte(s[i]) {
        LexOut::Match(ident_end(s, i + 1))
    } else {
        LexOut::Miss
    }
}

pub proof fn lemma_lex_identifier(s: Seq<u8>, i: int)
    requires
        0 <= i <= s.len(),
    ensures
        lex_identifier(s, i) is Match ==> i < lex_identifier(s, i)->Match_0 <= s.len(),
{
    if i < s.len() && is_ident_start_byte(s[i]) {
        lemma_ident_end(s, i + 1);
    }
}

/// A `//` comment running to the end of the line (or of the input).
fn line_comment(s: &[u8], i: usize) -> (r: Result<usize, ParseErr>)
    requires
        cursor_ok(s@, i as int),
    ensures
        r is Ok ==> i < r->Ok_0 <= s@.len(),
        r is Err ==> r->Err_0 is Backtrack,
        lex_matches(r, lex_line_comment(s@, i as int)),
{
    if !(i < s.len() && s[i] == B_SLASH && i + 1 < s.len() && s[i + 1] == B_SLASH) {
        return Err(ParseErr::Backtrack);
    }
    let mut j: usize = i + 2;
    while j < s.len() && s[j] != B_NL
        invariant
            i + 2 <= j <= s@.len(),
            eol_end(s@, i + 2) == eol_end(s@, j as int),
        decreases s@.len() - j,
    {
        j = j + 1;
    }
    Ok(j)
}

/// A `/* ... */` comment; unterminated comments are a definitive error.
fn block_comment(s: &[u8], i: usize) -> (r: Result<usize, ParseErr>)
    requires
        cursor_ok(s@, i as int),
    ensures
        r is Ok ==> i < r->Ok_0 <= s@.len(),
        lex_matches(r, lex_block_comment(s@, i as int)),
{
    if !(i < s.len() && s[i] == B_SLASH && i + 1 < s.len() && s[i + 1] == B_STAR) {
        return Err(ParseErr::Backtrack);
    }
    let mut j: usize = i + 2;
    while j < s.len() && !(s[j] == B_STAR && j + 1 < s.len() && s[j + 1] == B_SLASH)
        invariant
            i + 2 <= j <= s@.len(),
            bc_scan(s@, i + 2, i as int) == bc_scan(s@, j as int, i as int),
        decreases s@.len() - j,
    {
        j = j + 1;
    }
    if j < s.len() {
        Ok(j + 2)
    } else {
        Err(ParseErr::Cut(i))
    }
}

/// Whitespace and comments at `i`, zero or more of either; fails only on
/// an unterminated block comment.
pub open spec fn scan_ws(s: Seq<u8>, i: int) -> LexOut
    decreases s.len() - i when 0 <= i <= s.len()
{
    if lex_line_comment(s, i) is Match {
        proof {
            lemma_lex_line_comment(s, i);
        }
        scan_ws(s, lex_line_comment(s, i)->Match_0)
    } else if lex_block_comment(s, i) is Match {
        proof {
            lemma_lex_block_comment(s, i);
        }
        scan_ws(s, lex_block_comment(s, i)->Match_0)
    } else if lex_block_comment(s, i) is Fail {
        LexOut::Fail(lex_block_comment(s, i)->Fail_0)
    } else if i < s.len() && is_space_byte(s[i]) {
        scan_ws(s, i + 1)
    } else {
        LexOut::Match(i)
    }
}

pub proof fn lemma_scan_ws(s: Seq<u8>, i: int)
    requires
        0 <= i <= s.len(),
    ensures
        scan_ws(s, i) is Match ==> i <= scan_ws(s, i)->Match_0 <= s.len(),
        !(scan_ws(s, i) is Miss),
    decreases s.len() - i,
{
    if lex_line_comment(s, i) is Match {
        lemma_lex_line_comment(s, i);
        lemma_scan_ws(s, lex_line_comment(s, i)->Match_0);
    } else if lex_block_comment(s, i) is Match {
        lemma_lex_block_comment(s, i);
        lemma_scan_ws(s, lex_block_comment(s, i)->Match_0);
    } else if lex_block_comment(s, i) is Fail {
    } else if i < s.len() && is_space_byte(s[i]) {
        lemma_scan_ws(s, i + 1);
    }
}

/// Opaque text at `i` up to a byte of `term`: quoted strings and
/// comments are atomic, a lone slash is ordinary text, and the scan
/// stops (without consuming) at a terminator or at the end of the
/// input.
pub open spec fn scan_stuff(s: Seq<u8>, i: int, term: Seq<u8>) -> LexOut
    decreases s.len() - i when 0 <= i <= s.len()
{
    if i >= s.len() {
        LexOut::Match(i)
    } else if s[i] == B_DQUOTE || s[i] == B_SQUOTE {
        match lex_string(s, i) {
            LexOut::Match(j) => {
                proof {
                    lemma_lex_string(s, i);
                }
                scan_stuff(s, j, term)
            },
            LexOut::Fail(p) => LexOut::Fail(p),
            LexOut::Miss => LexOut::Fail(i),
        }
    } else if s[i] == B_SLASH {
        if lex_line_comment(s, i) is Match {
            proof {
                lemma_lex_line_comment(s, i);
            }
            scan_stuff(s, lex_line_comment(s, i)->Match_0, term)
        } else {
            match lex_block_comment(s, i) {
                LexOut::Match(j) => {
                    proof {
                        lemma_lex_block_comment(s, i);
                    }
                    scan_stuff(s, j, term)
                },
                LexOut::Fail(p) => LexOut::Fail(p),
                LexOut::Miss => scan_stuff(s, i + 1, term),
            }
        }
    } else if term.contains(s[i]) {
        LexOut::Match(i)
    } else {
        scan_stuff(s, i + 1, term)
    }
}

pub proof fn lemma_scan_stuff(s: Seq<u8>, i: int, term: Seq<u8>)
    requires
        0 <= i <= s.len(),
    ensures
        scan_stuff(s, i, term) is Match ==> i <= scan_stuff(s, i, term)->Match_0 <= s.len(),
        !(scan_stuff(s, i, term) is Miss),
    decreases s.len() - i,
{
    if i >= s.len() {
    } else if s[i] == B_DQUOTE || s[i] == B_SQUOTE {
        lemma_lex_string(s, i);
        if lex_string(s, i) is Match {
            lemma_scan_stuff(s, lex_string(s, i)->Match_0, term);
        }
    } else if s[i] == B_SLASH {
        lemma_lex_line_comment(s, i);
        lemma_lex_block_comment(s, i);
        if lex_line_comment(s, i) is Match {
            lemma_scan_stuff(s, lex_line_comment(s, i)->Match_0, term);
        } else if lex_block_comment(s, i) is Match {
            lemma_scan_stuff(s, lex_block_comment(s, i)->Match_0, term);
        } else if lex_block_comment(s, i) is Miss {
            lemma_scan_stuff(s, i + 1, term);
        }
    } else if term.contains(s[i]) {
    } else {
        lemma_scan_stuff(s, i + 1, term);
    }
}

/// Opaque text, refusing to match emptiness when `min_one` is set.
pub open spec fn lex_stuff_till(s: Seq<u8>, i: int, min_one: bool, term: Seq<u8>) -> LexOut {
    match scan_stuff(s, i, term) {
        LexOut::Match(j) => if min_one && j == i {
            LexOut::Miss
        } else {
            LexOut::Match(j)
        },
        o => o,
    }
}

/// Whitespace and comments, zero or more of either.
fn ws(s: &[u8], i: usize) -> (r: Result<usize, ParseErr>)
    requires
        cursor_ok(s@, i as int),
    ensures
        r is Ok ==> i <= r->Ok_0 <= s@.len(),
        r is Err ==> r->Err_0 is Cut,
        lex_matches(r, scan_ws(s@, i as int)),
    decreases s@.len() - i,
{
    match line_comment(s, i) {
        Ok(j) => {
            return ws(s, j);
        },
        Err(_) => {},
    }
    match block_comment(s, i) {
        Ok(j) => {
            return ws(s, j);
        },
        Err(e) => {
            if let ParseErr::Cut(p) = e {
                return Err(ParseErr::Cut(p));
            }
        },
    }
    if i < s.len() && space_byte(s[i]) {
        return ws(s, i + 1);
    }
    Ok(i)
}

/// An identifier: letter, underscore or hyphen, then letters, digits,
/// underscores and hyphens.
fn identifier(s: &[u8], i: usize) -> (r: Result<usize, ParseErr>)
    requires
        cursor_ok(s@, i as int),
    ensures
        r is Ok ==> i < r->Ok_0 <= s@.len() && is_identifier(
            s@.subrange(i as int, r->Ok_0 as int),
        ),
        r is Err ==> r->Err_0 is Backtrack,
        lex_matches(r, lex_identifier(s@, i as int)),
{
    if !(i < s.len() && ident_start_byte(s[i])) {
        return Err(ParseErr::Backtrack);
    }
    let mut j: usize = i + 1;
    while j < s.len() && ident_byte(s[j])
        invariant
            i + 1 <= j <= s@.len(),
            is_ident_start_byte(s@[i as int]),
            forall|k: int| i < k < j ==> is_ident_byte(#[trigger] s@[k]),
            ident_end(s@, i + 1) == ident_end(s@, j as int),
        decreases s@.len() - j,
    {
        j = j + 1;
    }
    proof {
        let sub = s@.subrange(i as int, j as int);
        assert(sub[0] == s@[i as int]);
        assert forall|k: int| 1 <= k < sub.len() implies is_ident_byte(#[trigger] sub[k]) by {
            assert(sub[k] == s@[i + k]);
        }
    }
    Ok(j)
}

/// An executable class-token result agrees with its specification.
pub open spec fn span_matches(r: Result<(Span, usize), ParseErr>, o: SpanOut) -> bool {
    match r {
        Result::Ok((sp, j)) => o == SpanOut::Match(sp, j as int),
        Result::Err(e) => e is Backtrack && o is Miss,
    }
}

/// A class token at `i`: a dot followed by an identifier.
pub open spec fn scan_class(s: Seq<u8>, i: int) -> SpanOut {
    if i < s.len() && s[i] == B_DOT && lex_identifier(s, i + 1) is Match {
        SpanOut::Match(
            Span {
                start: (i + 1) as usize,
                end: lex_identifier(s, i + 1)->Match_0 as usize,
            },
            lex_identifier(s, i + 1)->Match_0,
        )
    } else {
        SpanOut::Miss
    }
}

pub proof fn lemma_scan_class(s: Seq<u8>, i: int)
    requires
        0 <= i <= s.len(),
    ensures
        scan_class(s, i) is Match ==> i < scan_class(s, i)->Match_1 <= s.len(),
{
    if i < s.len() {
        lemma_lex_identifier(s, i + 1);
    }
}

/// A class token: `.` followed by an identifier; the span covers the
/// identifier only.
pub fn class(s: &[u8], i: usize) -> (r: Result<(Span, usize), ParseErr>)
    requires
        cursor_ok(s@, i as int),
    ensures
        r is Ok ==> ({
            let (sp, j) = r->Ok_0;
            &&& i < j <= s@.len()
            &&& sp.start == i + 1
            &&& sp.end == j
            &&& sp.start < sp.end
            &&& s@[i as int] == B_DOT
            &&& is_identifier(s@.subrange(sp.start as int, sp.end as int))
            &&& frag_matches_source(s@, CssFragment::Class(sp))
        }),
        r is Err ==> r->Err_0 is Backtrack,
        span_matches(r, scan_class(s@, i as int)),
{
    if !(i < s.len() && s[i] == B_DOT) {
        return Err(ParseErr::Backtrack);
    }
    match identifier(s, i + 1) {
        Ok(j) => Ok((Span { start: i + 1, end: j }, j)),
        Err(_) => Err(ParseErr::Backtrack),
    }
}

/// A quoted string with backslash-escaped quote characters; the interior
/// never terminates any enclosing construct.  Unterminated strings are a
/// definitive error.
fn string_quoted(s: &[u8], i: usize, q: u8) -> (r: Result<usize, ParseErr>)
    requires
        cursor_ok(s@, i as int),
    ensures
        r is Ok ==> i < r->Ok_0 <= s@.len(),
        lex_matches(r, lex_string_quoted(s@, i as int, q)),
{
    if !(i < s.len() && s[i] == q) {
        return Err(ParseErr::Backtrack);
    }
    let mut j: usize = i + 1;
    while j < s.len() && s[j] != q
        invariant
            i + 1 <= j <= s@.len(),
            sq_scan(s@, i + 1, q) == sq_scan(s@, j as int, q),
        decreases s@.len() - j,
    {
        if s[j] == B_BACKSLASH && j + 1 < s.len() && s[j + 1] == q {
            j = j + 2;
        } else {
            j = j + 1;
        }
    }
    if j < s.len() {
        Ok(j + 1)
    } else {
        Err(ParseErr::Cut(j))
    }
}

/// A single- or double-quoted string.
fn string_lit(s: &[u8], i: usize) -> (r: Result<usize, ParseErr>)
    requires
        cursor_ok(s@, i as int),
    ensures
        r is Ok ==> i < r->Ok_0 <= s@.len(),
        lex_matches(r, lex_string(s@, i as int)),
{
    match string_quoted(s, i, B_DQUOTE) {
        Ok(j) => {
            return Ok(j);
        },
        Err(e) => {
            if let ParseErr::Cut(p) = e {
                return Err(ParseErr::Cut(p));
            }
        },
    }
    string_quoted(s, i, B_SQUOTE)
}

/// Opaque text: everything up to a byte of `term`, with quoted strings
/// and comments treated as atomic tokens whose interior does not count.
/// With `min_one` the scan refuses to match emptiness.
pub fn stuff_till(s: &[u8], i: usize, min_one: bool, term: &[u8]) -> (r: Result<usize, ParseErr>)
    requires
        cursor_ok(s@, i as int),
    ensures
        r is Ok ==> i <= r->Ok_0 <= s@.len() && (min_one ==> i < r->Ok_0),
        lex_matches(r, lex_stuff_till(s@, i as int, min_one, term@)),
    decreases s@.len() - i,
{
    let mut cur: usize = i;
    let mut stop = false;
    while !stop
        invariant
            i <= cur <= s@.len() <= usize::MAX,
            scan_stuff(s@, i as int, term@) == scan_stuff(s@, cur as int, term@),
            stop ==> scan_stuff(s@, cur as int, term@) == LexOut::Match(cur as int),
        decreases s@.len() - cur + (if stop {
            0int
        } else {
            1int
        }),
    {
        if cur >= s.len() {
            stop = true;
        } else {
            let b = s[cur];
            if b == B_DQUOTE || b == B_SQUOTE {
                match string_lit(s, cur) {
                    Ok(j) => {
                        cur = j;
                    },
                    Err(e) => {
                        return Err(propagate_cut(e, cur));
                    },
                }
            } else if b == B_SLASH {
                match line_comment(s, cur) {
                    Ok(j) => {
                        cur = j;
                        continue;
                    },
                    Err(_) => {},
                }
                match block_comment(s, cur) {
                    Ok(j) => {
                        cur = j;
                    },
                    Err(e) => {
                        match e {
                            ParseErr::Cut(p) => {
                                return Err(ParseErr::Cut(p));
                            },
                            ParseErr::Backtrack => {
                                cur = cur + 1;
                            },
                        }
                    },
                }
            } else if byte_in(b, term) {
                stop = true;
            } else {
                cur = cur + 1;
            }
        }
    }
    if min_one && cur == i {
        return Err(ParseErr::Backtrack);
    }
    Ok(cur)
}

/// Turn any refusal into a definitive error at `pos`.
fn propagate_cut(e: ParseErr, pos: usize) -> (r: ParseErr)
    ensures
        r == match e {
            ParseErr::Cut(p) => ParseErr::Cut(p),
            ParseErr::Backtrack => ParseErr::Cut(pos),
        },
{
    match e {
        ParseErr::Cut(p) => ParseErr::Cut(p),
        ParseErr::Backtrack => ParseErr::Cut(pos),
    }
}

/// The literal `:global(` as a value.
fn global_prefix() -> (v: Vec<u8>)
    ensures
        v@ == global_open(),
{
    let mut v: Vec<u8> = Vec::new();
    v.push(B_COLON);
    v.push(103);
    v.push(108);
    v.push(111);
    v.push(98);
    v.push(97);
    v.push(108);
    v.push(B_LPAREN);
    proof {
        assert(v@ =~= global_open());
    }
    v
}

/// An executable global-escape result agrees with its specification.
pub open spec fn global_matches(r: Result<(Global, usize), ParseErr>, o: GlobalOut) -> bool {
    match r {
        Result::Ok((g, j)) => o == GlobalOut::Match(g, j as int),
        Result::Err(e) => match e {
            ParseErr::Backtrack => o is Miss,
            ParseErr::Cut(p) => o == GlobalOut::Fail(p as int),
        },
    }
}

/// The terminators of a global escape's inner text.
pub open spec fn global_term() -> Seq<u8> {
    seq![B_RPAREN, B_LPAREN, B_LBRACE]
}

/// A global escape at `i`: the literal `:global(`, opaque inner text,
/// then the closing parenthesis.
pub open spec fn scan_global(s: Seq<u8>, i: int) -> GlobalOut {
    if i + 8 <= s.len() && s.subrange(i, i + 8) == global_open() {
        match lex_stuff_till(s, i + 8, false, global_term()) {
            LexOut::Match(j) => if j < s.len() && s[j] == B_RPAREN {
                GlobalOut::Match(
                    Global {
                        inner: Span { start: (i + 8) as usize, end: j as usize },
                        outer: Span { start: i as usize, end: (j + 1) as usize },
                    },
                    j + 1,
                )
            } else {
                GlobalOut::Fail(j)
            },
            LexOut::Fail(p) => GlobalOut::Fail(p),
            LexOut::Miss => GlobalOut::Fail(i + 8),
        }
    } else {
        GlobalOut::Miss
    }
}

pub proof fn lemma_scan_global(s: Seq<u8>, i: int)
    requires
        0 <= i <= s.len(),
    ensures
        scan_global(s, i) is Match ==> i < scan_global(s, i)->Match_1 <= s.len(),
{
    if i + 8 <= s.len() {
        lemma_scan_stuff(s, i + 8, global_term());
    }
}

/// A global escape `:global( ... )`; its outer span covers the whole
/// construct and its inner span exactly the parenthesized text.
pub fn global(s: &[u8], i: usize) -> (r: Result<(Global, usize), ParseErr>)
    requires
        cursor_ok(s@, i as int),
    ensures
        r is Ok ==> ({
            let (g, j) = r->Ok_0;
            &&& i < j <= s@.len()
            &&& g.outer.start == i
            &&& g.outer.end == j
            &&& g.inner.start == i + 8
            &&& g.inner.end + 1 == j
            &&& frag_wf(CssFragment::Global(g))
            &&& frag_matches_source(s@, CssFragment::Global(g))
        }),
        global_matches(r, scan_global(s@, i as int)),
{
    let pre = global_prefix();
    if !starts_with_at(s, i, pre.as_slice()) {
        return Err(ParseErr::Backtrack);
    }
    let inner_start = i + 8;
    let mut term: Vec<u8> = Vec::new();
    term.push(B_RPAREN);
    term.push(B_LPAREN);
    term.push(B_LBRACE);
    proof {
        assert(term@ =~= global_term());
    }
    let inner_end = match stuff_till(s, inner_start, false, term.as_slice()) {
        Ok(j) => j,
        Err(e) => {
            return Err(propagate_cut(e, inner_start));
        },
    };
    if inner_end < s.len() && s[inner_end] == B_RPAREN {
        let g = Global {
            inner: Span { start: inner_start, end: inner_end },
            outer: Span { start: i, end: inner_end + 1 },
        };
        Ok((g, inner_end + 1))
    } else {
        Err(ParseErr::Cut(inner_end))
    }
}

/// The bytes that end a run of opaque selector text.
pub open spec fn selector_term() -> Seq<u8> {
    seq![B_DOT, B_SEMI, B_LBRACE, B_RBRACE, B_COLON]
}

/// Selector items at `i`, zero or more: class tokens and global escapes
/// yield fragments; a pseudo-class colon and opaque selector text are
/// consumed silently; the run ends where no alternative applies.
pub open spec fn scan_selector_items(s: Seq<u8>, i: int) -> ScanOut
    decreases s.len() - i when 0 <= i <= s.len()
{
    match scan_class(s, i) {
        SpanOut::Match(sp, j) => {
            proof {
                lemma_scan_class(s, i);
            }
            match scan_selector_items(s, j) {
                ScanOut::Match(v, j2) => ScanOut::Match(seq![CssFragment::Class(sp)] + v, j2),
                o => o,
            }
        },
        SpanOut::Miss => match scan_global(s, i) {
            GlobalOut::Match(g, j) => {
                proof {
                    lemma_scan_global(s, i);
                }
                match scan_selector_items(s, j) {
                    ScanOut::Match(v, j2) => ScanOut::Match(
                        seq![CssFragment::Global(g)] + v,
                        j2,
                    ),
                    o => o,
                }
            },
            GlobalOut::Fail(p) => ScanOut::Fail(p),
            GlobalOut::Miss => if i < s.len() && s[i] == B_COLON {
                scan_selector_items(s, i + 1)
            } else {
                match lex_stuff_till(s, i, true, selector_term()) {
                    LexOut::Match(j) => {
                        proof {
                            lemma_scan_stuff(s, i, selector_term());
                        }
                        scan_selector_items(s, j)
                    },
                    LexOut::Miss => ScanOut::Match(Seq::empty(), i),
                    LexOut::Fail(p) => ScanOut::Fail(p),
                }
            },
        },
    }
}

pub proof fn lemma_scan_selector_items(s: Seq<u8>, i: int)
    requires
        0 <= i <= s.len(),
    ensures
        scan_selector_items(s, i) is Match ==> i <= scan_selector_items(s, i)->Match_1 <= s.len(),
    decreases s.len() - i,
{
    lemma_scan_class(s, i);
    lemma_scan_global(s, i);
    lemma_scan_stuff(s, i, selector_term());
    match scan_class(s, i) {
        SpanOut::Match(sp, j) => {
            lemma_scan_selector_items(s, j);
        },
        SpanOut::Miss => match scan_global(s, i) {
            GlobalOut::Match(g, j) => {
                lemma_scan_selector_items(s, j);
            },
            GlobalOut::Fail(p) => {},
            GlobalOut::Miss => if i < s.len() && s[i] == B_COLON {
                lemma_scan_selector_items(s, i + 1);
            } else {
                match lex_stuff_till(s, i, true, selector_term()) {
                    LexOut::Match(j) => {
                        lemma_scan_selector_items(s, j);
                    },
                    _ => {},
                }
            },
        },
    }
}

/// A selector at `i`: one or more selector items; an empty run refuses.
pub open spec fn scan_selector(s: Seq<u8>, i: int) -> ScanOut {
    match scan_selector_items(s, i) {
        ScanOut::Match(v, j) => if j == i {
            ScanOut::Miss
        } else {
            ScanOut::Match(v, j)
        },
        o => o,
    }
}

/// The selector terminators as a value.
fn selector_terminators() -> (v: Vec<u8>)
    ensures
        v@ == selector_term(),
{
    let mut v: Vec<u8> = Vec::new();
    v.push(B_DOT);
    v.push(B_SEMI);
    v.push(B_LBRACE);
    v.push(B_RBRACE);
    v.push(B_COLON);
    proof {
        assert(v@ =~= selector_term());
    }
    v
}

/// A run of selector items, possibly empty.
fn selector_items(s: &[u8], i: usize) -> (r: Result<(Vec<CssFragment>, usize), ParseErr>)
    requires
        cursor_ok(s@, i as int),
    ensures
        r is Ok ==> ({
            let (v, j) = r->Ok_0;
            &&& i <= j <= s@.len()
            &&& frags_ok(s@, v@, i as int, j as int)
        }),
        scan_out_matches(r, scan_selector_items(s@, i as int)),
    decreases s@.len() - i,
{
    match class(s, i) {
        Ok((sp, j)) => {
            let (mut rest, j2) = match selector_items(s, j) {
                Ok(p) => p,
                Err(e) => {
                    return Err(e);
                },
            };
            let ghost rest0 = rest@;
            let mut v: Vec<CssFragment> = Vec::new();
            v.push(CssFragment::Class(sp));
            proof {
                assert(frags_ok(s@, v@, i as int, j as int));
                lemma_frags_ok_concat(s@, v@, rest0, i as int, j as int, j2 as int);
            }
            v.append(&mut rest);
            proof {
                assert(v@ =~= seq![CssFragment::Class(sp)] + rest0);
            }
            return Ok((v, j2));
        },
        Err(_) => {},
    }
    match global(s, i) {
        Ok((g, j)) => {
            let (mut rest, j2) = match selector_items(s, j) {
                Ok(p) => p,
                Err(e) => {
                    return Err(e);
                },
            };
            let ghost rest0 = rest@;
            let mut v: Vec<CssFragment> = Vec::new();
            v.push(CssFragment::Global(g));
            proof {
                assert(frags_ok(s@, v@, i as int, j as int));
                lemma_frags_ok_concat(s@, v@, rest0, i as int, j as int, j2 as int);
            }
            v.append(&mut rest);
            proof {
                assert(v@ =~= seq![CssFragment::Global(g)] + rest0);
            }
            return Ok((v, j2));
        },
        Err(e) => {
            if let ParseErr::Cut(p) = e {
                return Err(ParseErr::Cut(p));
            }
        },
    }
    if i < s.len() && s[i] == B_COLON {
        return selector_items(s, i + 1);
    }
    let term = selector_terminators();
    match stuff_till(s, i, true, term.as_slice()) {
        Ok(j) => selector_items(s, j),
        Err(ParseErr::Backtrack) => Ok((Vec::new(), i)),
        Err(ParseErr::Cut(p)) => Err(ParseErr::Cut(p)),
    }
}

/// A selector: classes, global escapes, pseudo-class markers and opaque
/// selector text, one or more, stopping before `{` (or anything that can
/// begin a block boundary).
pub fn selector(s: &[u8], i: usize) -> (r: Result<(Vec<CssFragment>, usize), ParseErr>)
    requires
        cursor_ok(s@, i as int),
    ensures
        r is Ok ==> ({
            let (v, j) = r->Ok_0;
            &&& i < j <= s@.len()
            &&& frags_ok(s@, v@, i as int, j as int)
        }),
        scan_out_matches(r, scan_selector(s@, i as int)),
{
    match selector_items(s, i) {
        Ok((v, j)) => {
            if j == i {
                Err(ParseErr::Backtrack)
            } else {
                Ok((v, j))
            }
        },
        Err(e) => Err(e),
    }
}

/// The bytes that end a declaration's value.
pub open spec fn value_term() -> Seq<u8> {
    seq![B_SEMI, B_LBRACE, B_RBRACE]
}

/// A declaration at `i`: an identifier (optionally `$`-prefixed),
/// whitespace, a colon, an opaque value, then a semicolon — or a peeked
/// `}` standing in for the final semicolon of a block.
pub open spec fn scan_declaration(s: Seq<u8>, i: int) -> LexOut {
    let c0 = if i < s.len() && s[i] == B_DOLLAR {
        i + 1
    } else {
        i
    };
    match lex_identifier(s, c0) {
        LexOut::Match(c1) => {
            match scan_ws(s, c1) {
                LexOut::Match(c2) => if c2 < s.len() && s[c2] == B_COLON {
                    match lex_stuff_till(s, c2 + 1, true, value_term()) {
                        LexOut::Match(c3) => if c3 < s.len() && s[c3] == B_SEMI {
                            LexOut::Match(c3 + 1)
                        } else if c3 < s.len() && s[c3] == B_RBRACE {
                            LexOut::Match(c3)
                        } else {
                            LexOut::Miss
                        },
                        o => o,
                    }
                } else {
                    LexOut::Miss
                },
                o => o,
            }
        },
        o => o,
    }
}

/// A declaration: an identifier (optionally `$`-prefixed), `:`, then an
/// opaque value, ended by `;` or implicitly by a closing `}`.
pub fn declaration(s: &[u8], i: usize) -> (r: Result<usize, ParseErr>)
    requires
        cursor_ok(s@, i as int),
    ensures
        r is Ok ==> i < r->Ok_0 <= s@.len(),
        lex_matches(r, scan_declaration(s@, i as int)),
{
    let mut cur: usize = i;
    if cur < s.len() && s[cur] == B_DOLLAR {
        cur = cur + 1;
    }
    cur = match identifier(s, cur) {
        Ok(j) => j,
        Err(_) => {
            return Err(ParseErr::Backtrack);
        },
    };
    cur = match ws(s, cur) {
        Ok(j) => j,
        Err(e) => {
            return Err(e);
        },
    };
    if !(cur < s.len() && s[cur] == B_COLON) {
        return Err(ParseErr::Backtrack);
    }
    cur = cur + 1;
    let mut term: Vec<u8> = Vec::new();
    term.push(B_SEMI);
    term.push(B_LBRACE);
    term.push(B_RBRACE);
    proof {
        assert(term@ =~= value_term());
    }
    cur = match stuff_till(s, cur, true, term.as_slice()) {
        Ok(j) => j,
        Err(e) => {
            return Err(e);
        },
    };
    if cur < s.len() && s[cur] == B_SEMI {
        Ok(cur + 1)
    } else if cur < s.len() && s[cur] == B_RBRACE {
        Ok(cur)
    } else {
        Err(ParseErr::Backtrack)
    }
}

/// The literal `media`.
pub open spec fn media_kw() -> Seq<u8> {
    seq![109u8, 101u8, 100u8, 105u8, 97u8]
}

/// The literal `layer`.
pub open spec fn layer_kw() -> Seq<u8> {
    seq![108u8, 97u8, 121u8, 101u8, 114u8]
}

/// The literal `container`.
pub open spec fn container_kw() -> Seq<u8> {
    seq![99u8, 111u8, 110u8, 116u8, 97u8, 105u8, 110u8, 101u8, 114u8]
}

/// The literal `media` as a value.
fn kw_media() -> (v: Vec<u8>)
    ensures
        v@ == media_kw(),
{
    let mut v: Vec<u8> = Vec::new();
    v.push(109);
    v.push(101);
    v.push(100);
    v.push(105);
    v.push(97);
    proof {
        assert(v@ =~= media_kw());
    }
    v
}

/// The literal `layer` as a value.
fn kw_layer() -> (v: Vec<u8>)
    ensures
        v@ == layer_kw(),
{
    let mut v: Vec<u8> = Vec::new();
    v.push(108);
    v.push(97);
    v.push(121);
    v.push(101);
    v.push(114);
    proof {
        assert(v@ =~= layer_kw());
    }
    v
}

/// The literal `container` as a value.
fn kw_container() -> (v: Vec<u8>)
    ensures
        v@ == container_kw(),
{
    let mut v: Vec<u8> = Vec::new();
    v.push(99);
    v.push(111);
    v.push(110);
    v.push(116);
    v.push(97);
    v.push(105);
    v.push(110);
    v.push(101);
    v.push(114);
    proof {
        assert(v@ =~= container_kw());
    }
    v
}

/// Whether the bytes `[a, b)` of `s` equal the keyword `w`.
fn region_is(s: &[u8], a: usize, b: usize, w: &Vec<u8>) -> (r: bool)
    requires
        a <= b <= s@.len() <= usize::MAX,
    ensures
        r == (s@.subrange(a as int, b as int) == w@),
{
    let r = b - a == w.len() && starts_with_at(s, a, w.as_slice());
    proof {
        if b - a == w@.len() {
            assert(s@.subrange(a as int, a + w@.len()) =~= s@.subrange(a as int, b as int));
        }
    }
    r
}

/// The bytes that end a run inside an unrecognized at-rule body.
pub open spec fn unknown_term() -> Seq<u8> {
    seq![B_LBRACE, B_RBRACE]
}

/// The interior of an unrecognized at-rule body at `i`: opaque text and
/// exactly matched `{ ... }` groups, stopping before the enclosing
/// closing brace.
pub open spec fn scan_unknown(s: Seq<u8>, i: int) -> LexOut
    decreases s.len() - i when 0 <= i <= s.len()
{
    match lex_stuff_till(s, i, true, unknown_term()) {
        LexOut::Match(j) => {
            proof {
                lemma_scan_stuff(s, i, unknown_term());
            }
            scan_unknown(s, j)
        },
        LexOut::Fail(p) => LexOut::Fail(p),
        LexOut::Miss => if i < s.len() && s[i] == B_LBRACE {
            match ({
                proof {
                    lemma_scan_stuff(s, i, unknown_term());
                }
                scan_unknown(s, i + 1)
            }) {
                LexOut::Match(j) => if i <= j && j < s.len() && s[j] == B_RBRACE {
                    scan_unknown(s, j + 1)
                } else if j < s.len() && s[j] == B_RBRACE {
                    // a nested scan never moves backwards; unreachable
                    LexOut::Fail(j)
                } else {
                    LexOut::Fail(j)
                },
                LexOut::Fail(p) => LexOut::Fail(p),
                LexOut::Miss => LexOut::Fail(i),
            }
        } else {
            LexOut::Match(i)
        },
    }
}

/// The bytes that end an at-rule's prelude.
pub open spec fn at_term() -> Seq<u8> {
    seq![B_LBRACE, B_RBRACE, B_SEMI]
}

/// An at-rule at `i`: `@`, a name, an opaque prelude, then either `;`
/// (no body), an implicit end before `}`, or a braced body.  A `media`,
/// `layer` or `container` body is scanned as ordinary stylesheet
/// content; any other body is skipped by exact brace matching and
/// yields nothing.
pub open spec fn scan_at_rule(s: Seq<u8>, i: int) -> ScanOut
    decreases s.len() - i, 1int when 0 <= i <= s.len()
{
    if i < s.len() && s[i] == B_AT {
        match lex_identifier(s, i + 1) {
            LexOut::Match(ne) => {
                proof {
                    lemma_lex_identifier(s, i + 1);
                }
                match lex_stuff_till(s, ne, false, at_term()) {
                    LexOut::Match(cur) => {
                        proof {
                            lemma_scan_stuff(s, ne, at_term());
                        }
                        if cur < s.len() && s[cur] == B_SEMI {
                            ScanOut::Match(Seq::empty(), cur + 1)
                        } else if cur < s.len() && s[cur] == B_RBRACE {
                            ScanOut::Match(Seq::empty(), cur)
                        } else if cur < s.len() && s[cur] == B_LBRACE {
                            if s.subrange(i + 1, ne) == media_kw() || s.subrange(i + 1, ne)
                                == layer_kw() || s.subrange(i + 1, ne) == container_kw() {
                                match scan_contents(s, cur + 1) {
                                    ScanOut::Match(v, j) => if j < s.len() && s[j] == B_RBRACE {
                                        ScanOut::Match(v, j + 1)
                                    } else {
                                        ScanOut::Fail(j)
                                    },
                                    ScanOut::Fail(p) => ScanOut::Fail(p),
                                    ScanOut::Miss => ScanOut::Fail(cur + 1),
                                }
                            } else {
                                match scan_unknown(s, cur + 1) {
                                    LexOut::Match(j) => if j < s.len() && s[j] == B_RBRACE {
                                        ScanOut::Match(Seq::empty(), j + 1)
                                    } else {
                                        ScanOut::Fail(j)
                                    },
                                    LexOut::Fail(p) => ScanOut::Fail(p),
                                    LexOut::Miss => ScanOut::Fail(cur + 1),
                                }
                            }
                        } else {
                            ScanOut::Fail(cur)
                        }
                    },
                    LexOut::Fail(p) => ScanOut::Fail(p),
                    LexOut::Miss => ScanOut::Fail(ne),
                }
            },
            _ => ScanOut::Fail(i + 1),
        }
    } else {
        ScanOut::Miss
    }
}

/// A rule block at `i`: `{`, contents, trailing whitespace, `}`.
pub open spec fn scan_block(s: Seq<u8>, i: int) -> ScanOut
    decreases s.len() - i, 0int when 0 <= i <= s.len()
{
    if i < s.len() && s[i] == B_LBRACE {
        match scan_contents(s, i + 1) {
            ScanOut::Match(v, j) => match scan_ws(s, j) {
                LexOut::Match(j2) => if j2 < s.len() && s[j2] == B_RBRACE {
                    ScanOut::Match(v, j2 + 1)
                } else {
                    ScanOut::Fail(j2)
                },
                LexOut::Fail(p) => ScanOut::Fail(p),
                LexOut::Miss => ScanOut::Fail(j),
            },
            ScanOut::Fail(p) => ScanOut::Fail(p),
            ScanOut::Miss => ScanOut::Fail(i + 1),
        }
    } else {
        ScanOut::Miss
    }
}

/// A style rule at `i`: a selector, then its block; the selector's
/// fragments come first, then the block's, in document order.
pub open spec fn scan_style_rule(s: Seq<u8>, i: int) -> ScanOut
    decreases s.len() - i, 1int when 0 <= i <= s.len()
{
    match scan_selector(s, i) {
        ScanOut::Match(v1, j1) => {
            proof {
                lemma_scan_selector_items(s, i);
            }
            match scan_block(s, j1) {
                ScanOut::Match(v2, j2) => ScanOut::Match(v1 + v2, j2),
                o => o,
            }
        },
        o => o,
    }
}

/// The trailing whitespace of one statement.
pub open spec fn statement_finish(s: Seq<u8>, v: Seq<CssFragment>, c: int) -> ScanOut {
    match scan_ws(s, c) {
        LexOut::Match(j2) => ScanOut::Match(v, j2),
        LexOut::Fail(p) => ScanOut::Fail(p),
        LexOut::Miss => ScanOut::Fail(c),
    }
}

/// One statement at `i`: leading whitespace, then a declaration, an
/// at-rule or a style rule, then trailing whitespace.
pub open spec fn scan_statement(s: Seq<u8>, i: int) -> ScanOut
    decreases s.len() - i, 2int when 0 <= i <= s.len()
{
    match scan_ws(s, i) {
        LexOut::Match(i1) => {
            proof {
                lemma_scan_ws(s, i);
            }
            match scan_declaration(s, i1) {
                LexOut::Match(c) => statement_finish(s, Seq::empty(), c),
                LexOut::Fail(p) => ScanOut::Fail(p),
                LexOut::Miss => match scan_at_rule(s, i1) {
                    ScanOut::Match(v, c) => statement_finish(s, v, c),
                    ScanOut::Fail(p) => ScanOut::Fail(p),
                    ScanOut::Miss => match scan_style_rule(s, i1) {
                        ScanOut::Match(v, c) => statement_finish(s, v, c),
                        o => o,
                    },
                },
            }
        },
        LexOut::Fail(p) => ScanOut::Fail(p),
        LexOut::Miss => ScanOut::Fail(i),
    }
}

/// A statement sequence at `i`: statements while they match, stopping
/// before whatever no statement shape matches.
pub open spec fn scan_contents(s: Seq<u8>, i: int) -> ScanOut
    decreases s.len() - i, 3int when 0 <= i <= s.len()
{
    match scan_statement(s, i) {
        ScanOut::Match(v, j) => if i < j <= s.len() {
            match scan_contents(s, j) {
                ScanOut::Match(v2, j2) => ScanOut::Match(v + v2, j2),
                o => o,
            }
        } else {
            // a matched statement always advances; the guard is structural
            ScanOut::Match(v, j)
        },
        ScanOut::Fail(p) => ScanOut::Fail(p),
        ScanOut::Miss => ScanOut::Match(Seq::empty(), i),
    }
}

/// A rule sequence at `i`: style rules while they match, then trailing
/// whitespace.
pub open spec fn scan_rules(s: Seq<u8>, i: int) -> ScanOut
    decreases s.len() - i, 4int when 0 <= i <= s.len()
{
    match scan_style_rule(s, i) {
        ScanOut::Match(v, j) => if i < j <= s.len() {
            match scan_rules(s, j) {
                ScanOut::Match(v2, j2) => ScanOut::Match(v + v2, j2),
                o => o,
            }
        } else {
            // a matched rule always advances; the guard is structural
            ScanOut::Match(v, j)
        },
        ScanOut::Fail(p) => ScanOut::Fail(p),
        ScanOut::Miss => match scan_ws(s, i) {
            LexOut::Match(j) => ScanOut::Match(Seq::empty(), j),
            LexOut::Fail(p) => ScanOut::Fail(p),
            LexOut::Miss => ScanOut::Fail(i),
        },
    }
}

/// The whole-document scan: the top-level statement sequence, accepted
/// exactly when it consumes the entire input.
pub open spec fn scan(s: Seq<u8>) -> Option<Seq<CssFragment>> {
    match scan_contents(s, 0) {
        ScanOut::Match(v, j) => if j == s.len() {
            Option::Some(v)
        } else {
            Option::None
        },
        _ => Option::None,
    }
}

/// An at-rule: `@` + identifier + opaque prelude, then `;`, an implicit
/// end before `}`, or a `{ ... }` body.  Bodies of `media`, `layer` and
/// `container` rules are scanned as ordinary stylesheet content; any
/// other body is skipped by exact brace matching and yields no fragments.
pub fn at_rule(s: &[u8], i: usize) -> (r: Result<(Vec<CssFragment>, usize), ParseErr>)
    requires
        cursor_ok(s@, i as int),
    ensures
        r is Ok ==> ({
            let (v, j) = r->Ok_0;
            &&& i < j <= s@.len()
            &&& frags_ok(s@, v@, i as int, j as int)
        }),
        scan_out_matches(r, scan_at_rule(s@, i as int)),
    decreases s@.len() - i, 1int,
{
    if !(i < s.len() && s[i] == B_AT) {
        return Err(ParseErr::Backtrack);
    }
    let name_start = i + 1;
    let name_end = match identifier(s, name_start) {
        Ok(j) => j,
        Err(_) => {
            return Err(ParseErr::Cut(name_start));
        },
    };
    let mut term: Vec<u8> = Vec::new();
    term.push(B_LBRACE);
    term.push(B_RBRACE);
    term.push(B_SEMI);
    proof {
        assert(term@ =~= at_term());
    }
    let mut cur = match stuff_till(s, name_end, false, term.as_slice()) {
        Ok(j) => j,
        Err(e) => {
            return Err(propagate_cut(e, name_end));
        },
    };
    if cur < s.len() && s[cur] == B_SEMI {
        return Ok((Vec::new(), cur + 1));
    }
    if cur < s.len() && s[cur] == B_RBRACE {
        return Ok((Vec::new(), cur));
    }
    if !(cur < s.len() && s[cur] == B_LBRACE) {
        return Err(ParseErr::Cut(cur));
    }
    cur = cur + 1;
    let reenter = region_is(s, name_start, name_end, &kw_media()) || region_is(
        s,
        name_start,
        name_end,
        &kw_layer(),
    ) || region_is(s, name_start, name_end, &kw_container());
    if reenter {
        let (v, j) = match style_rule_block_contents(s, cur) {
            Ok(p) => p,
            Err(e) => {
                return Err(propagate_cut(e, cur));
            },
        };
        if j < s.len() && s[j] == B_RBRACE {
            proof {
                lemma_frags_ok_widen(s@, v@, cur as int, j as int, i as int, j + 1);
            }
            Ok((v, j + 1))
        } else {
            Err(ParseErr::Cut(j))
        }
    } else {
        let j = match unknown_block_contents(s, cur) {
            Ok(j) => j,
            Err(e) => {
                return Err(propagate_cut(e, cur));
            },
        };
        if j < s.len() && s[j] == B_RBRACE {
            Ok((Vec::new(), j + 1))
        } else {
            Err(ParseErr::Cut(j))
        }
    }
}

/// The interior of an unrecognized at-rule body: opaque text and exactly
/// matched `{ ... }` groups, up to the closing brace of the enclosing
/// block.
fn unknown_block_contents(s: &[u8], i: usize) -> (r: Result<usize, ParseErr>)
    requires
        cursor_ok(s@, i as int),
    ensures
        r is Ok ==> i <= r->Ok_0 <= s@.len(),
        lex_matches(r, scan_unknown(s@, i as int)),
    decreases s@.len() - i, 0int,
{
    let mut term: Vec<u8> = Vec::new();
    term.push(B_LBRACE);
    term.push(B_RBRACE);
    proof {
        assert(term@ =~= unknown_term());
    }
    match stuff_till(s, i, true, term.as_slice()) {
        Ok(j) => {
            return unknown_block_contents(s, j);
        },
        Err(e) => {
            if let ParseErr::Cut(p) = e {
                return Err(ParseErr::Cut(p));
            }
        },
    }
    if i < s.len() && s[i] == B_LBRACE {
        let j = match unknown_block_contents(s, i + 1) {
            Ok(j) => j,
            Err(e) => {
                return Err(propagate_cut(e, i));
            },
        };
        if j < s.len() && s[j] == B_RBRACE {
            unknown_block_contents(s, j + 1)
        } else {
            Err(ParseErr::Cut(j))
        }
    } else {
        Ok(i)
    }
}

/// A rule block `{ ... }` after a selector.
fn style_rule_block(s: &[u8], i: usize) -> (r: Result<(Vec<CssFragment>, usize), ParseErr>)
    requires
        cursor_ok(s@, i as int),
    ensures
        r is Ok ==> ({
            let (v, j) = r->Ok_0;
            &&& i < j <= s@.len()
            &&& frags_ok(s@, v@, i as int, j as int)
        }),
        scan_out_matches(r, scan_block(s@, i as int)),
    decreases s@.len() - i, 0int,
{
    if !(i < s.len() && s[i] == B_LBRACE) {
        return Err(ParseErr::Backtrack);
    }
    let (v, j) = match style_rule_block_contents(s, i + 1) {
        Ok(p) => p,
        Err(e) => {
            return Err(propagate_cut(e, i + 1));
        },
    };
    let j2 = match ws(s, j) {
        Ok(j2) => j2,
        Err(e) => {
            return Err(e);
        },
    };
    if j2 < s.len() && s[j2] == B_RBRACE {
        proof {
            lemma_frags_ok_widen(s@, v@, i + 1, j as int, i as int, j2 + 1);
        }
        Ok((v, j2 + 1))
    } else {
        Err(ParseErr::Cut(j2))
    }
}

/// A style rule: a selector followed by its block; fragments come from
/// the selector first, then from the block's contents, in document
/// order.
pub fn style_rule(s: &[u8], i: usize) -> (r: Result<(Vec<CssFragment>, usize), ParseErr>)
    requires
        cursor_ok(s@, i as int),
    ensures
        r is Ok ==> ({
            let (v, j) = r->Ok_0;
            &&& i < j <= s@.len()
            &&& frags_ok(s@, v@, i as int, j as int)
        }),
        scan_out_matches(r, scan_style_rule(s@, i as int)),
    decreases s@.len() - i, 1int,
{
    let (mut v1, j1) = match selector(s, i) {
        Ok(p) => p,
        Err(e) => {
            return Err(e);
        },
    };
    let (mut v2, j2) = match style_rule_block(s, j1) {
        Ok(p) => p,
        Err(e) => {
            return Err(e);
        },
    };
    proof {
        lemma_frags_ok_concat(s@, v1@, v2@, i as int, j1 as int, j2 as int);
    }
    v1.append(&mut v2);
    Ok((v1, j2))
}

/// One statement inside a block (or at the top level): a declaration, an
/// at-rule or a nested style rule, with surrounding whitespace.
fn style_rule_block_statement(s: &[u8], i: usize) -> (r: Result<(Vec<CssFragment>, usize), ParseErr>)
    requires
        cursor_ok(s@, i as int),
    ensures
        r is Ok ==> ({
            let (v, j) = r->Ok_0;
            &&& i < j <= s@.len()
            &&& frags_ok(s@, v@, i as int, j as int)
        }),
        scan_out_matches(r, scan_statement(s@, i as int)),
    decreases s@.len() - i, 2int,
{
    let i1 = match ws(s, i) {
        Ok(j) => j,
        Err(e) => {
            return Err(e);
        },
    };
    let mut v: Vec<CssFragment> = Vec::new();
    let mut cur: usize;
    match declaration(s, i1) {
        Ok(j) => {
            cur = j;
        },
        Err(ParseErr::Cut(p)) => {
            return Err(ParseErr::Cut(p));
        },
        Err(ParseErr::Backtrack) => {
            match at_rule(s, i1) {
                Ok((v2, j)) => {
                    v = v2;
                    cur = j;
                },
                Err(ParseErr::Cut(p)) => {
                    return Err(ParseErr::Cut(p));
                },
                Err(ParseErr::Backtrack) => {
                    match style_rule(s, i1) {
                        Ok((v2, j)) => {
                            v = v2;
                            cur = j;
                        },
                        Err(e) => {
                            return Err(e);
                        },
                    }
                },
            }
        },
    }
    let j2 = match ws(s, cur) {
        Ok(j) => j,
        Err(e) => {
            return Err(e);
        },
    };
    proof {
        lemma_frags_ok_widen(s@, v@, i1 as int, cur as int, i as int, j2 as int);
    }
    Ok((v, j2))
}

/// A sequence of statements; stops before anything that no statement
/// shape matches (such as the closing brace of an enclosing block).
pub fn style_rule_block_contents(s: &[u8], i: usize) -> (r: Result<
    (Vec<CssFragment>, usize),
    ParseErr,
>)
    requires
        cursor_ok(s@, i as int),
    ensures
        r is Ok ==> ({
            let (v, j) = r->Ok_0;
            &&& i <= j <= s@.len()
            &&& frags_ok(s@, v@, i as int, j as int)
        }),
        scan_out_matches(r, scan_contents(s@, i as int)),
    decreases s@.len() - i, 3int,
{
    match style_rule_block_statement(s, i) {
        Ok((mut v, j)) => {
            let (mut v2, j2) = match style_rule_block_contents(s, j) {
                Ok(p) => p,
                Err(e) => {
                    return Err(e);
                },
            };
            proof {
                lemma_frags_ok_concat(s@, v@, v2@, i as int, j as int, j2 as int);
            }
            v.append(&mut v2);
            Ok((v, j2))
        },
        Err(ParseErr::Cut(p)) => Err(ParseErr::Cut(p)),
        Err(ParseErr::Backtrack) => Ok((Vec::new(), i)),
    }
}

/// A sequence of style rules followed by trailing whitespace: a
/// restricted top-level grammar for inputs that consist of rules alone.
pub fn style_rule_list(s: &[u8], i: usize) -> (r: Result<(Vec<CssFragment>, usize), ParseErr>)
    requires
        cursor_ok(s@, i as int),
    ensures
        r is Ok ==> ({
            let (v, j) = r->Ok_0;
            &&& i <= j <= s@.len()
            &&& frags_ok(s@, v@, i as int, j as int)
        }),
        scan_out_matches(r, scan_rules(s@, i as int)),
    decreases s@.len() - i, 4int,
{
    match style_rule(s, i) {
        Ok((mut v, j)) => {
            let (mut v2, j2) = match style_rule_list(s, j) {
                Ok(p) => p,
                Err(e) => {
                    return Err(e);
                },
            };
            proof {
                lemma_frags_ok_concat(s@, v@, v2@, i as int, j as int, j2 as int);
            }
            v.append(&mut v2);
            Ok((v, j2))
        },
        Err(ParseErr::Cut(p)) => Err(ParseErr::Cut(p)),
        Err(ParseErr::Backtrack) => {
            match ws(s, i) {
                Ok(j) => Ok((Vec::new(), j)),
                Err(e) => Err(e),
            }
        },
    }
}

/// Scan a whole document: succeeds exactly when the entire input
/// derives from the grammar as a sequence of top-level statements, and
/// then returns exactly the fragments of the specification-level scan —
/// in document order, non-overlapping, each pointing at real syntax.
/// On failure the error carries the byte offset where matching broke
/// down.
pub fn parse_css(s: &[u8]) -> (r: Result<Vec<CssFragment>, CssParseError>)
    ensures
        r is Ok <==> scan(s@) is Some,
        r is Ok ==> r->Ok_0@ == scan(s@)->0,
        r is Ok ==> frags_ok(s@, r->Ok_0@, 0, s@.len() as int),
        r is Err ==> r->Err_0.pos as int == (match scan_contents(s@, 0) {
            ScanOut::Match(v, j) => j,
            ScanOut::Fail(p) => p,
            ScanOut::Miss => 0,
        }),
{
    let n = s.len();
    match style_rule_block_contents(s, 0) {
        Ok((v, j)) => {
            if j == n {
                Ok(v)
            } else {
                Err(CssParseError { pos: j })
            }
        },
        Err(ParseErr::Cut(p)) => Err(CssParseError { pos: p }),
        Err(ParseErr::Backtrack) => Err(CssParseError { pos: 0 }),
    }
}

} // verus!
