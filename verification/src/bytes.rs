//! Byte-level vocabulary shared by the scanner, the renamer and the
//! orchestrator: named ASCII codes, character classes, literal byte
//! sequences, and lexicographic ordering of byte strings.
use vstd::prelude::*;

verus! {

pub const B_TAB: u8 = 9;
pub const B_NL: u8 = 10;
pub const B_CR: u8 = 13;
pub const B_SPACE: u8 = 32;
pub const B_DQUOTE: u8 = 34;
pub const B_DOLLAR: u8 = 36;
pub const B_SQUOTE: u8 = 39;
pub const B_LPAREN: u8 = 40;
pub const B_RPAREN: u8 = 41;
pub const B_STAR: u8 = 42;
pub const B_HYPHEN: u8 = 45;
pub const B_DOT: u8 = 46;
pub const B_SLASH: u8 = 47;
pub const B_COLON: u8 = 58;
pub const B_SEMI: u8 = 59;
pub const B_AT: u8 = 64;
pub const B_LBRACKET: u8 = 91;
pub const B_BACKSLASH: u8 = 92;
pub const B_RBRACKET: u8 = 93;
pub const B_UNDERSCORE: u8 = 95;
pub const B_LBRACE: u8 = 123;
pub const B_RBRACE: u8 = 125;

pub open spec fn is_space_byte(b: u8) -> bool {
    b == B_SPACE || b == B_TAB || b == B_NL || b == B_CR
}

pub open spec fn is_alpha_byte(b: u8) -> bool {
    (65 <= b && b <= 90) || (97 <= b && b <= 122)
}

pub open spec fn is_digit_byte(b: u8) -> bool {
    48 <= b && b <= 57
}

pub open spec fn is_ident_start_byte(b: u8) -> bool {
    b == B_UNDERSCORE || b == B_HYPHEN || is_alpha_byte(b)
}

pub open spec fn is_ident_byte(b: u8) -> bool {
    b == B_UNDERSCORE || b == B_HYPHEN || is_alpha_byte(b) || is_digit_byte(b)
}

/// A non-empty run of identifier characters whose first character may not
/// be a digit: the shape of a class name or an at-rule name.
pub open spec fn is_identifier(s: Seq<u8>) -> bool {
    s.len() >= 1 && is_ident_start_byte(s[0]) && forall|k: int|
        1 <= k < s.len() ==> is_ident_byte(#[trigger] s[k])
}

pub fn space_byte(b: u8) -> (r: bool)
    ensures
        r == is_space_byte(b),
{
    b == B_SPACE || b == B_TAB || b == B_NL || b == B_CR
}

pub fn ident_start_byte(b: u8) -> (r: bool)
    ensures
        r == is_ident_start_byte(b),
{
    b == B_UNDERSCORE || b == B_HYPHEN || (65 <= b && b <= 90) || (97 <= b && b <= 122)
}

pub fn ident_byte(b: u8) -> (r: bool)
    ensures
        r == is_ident_byte(b),
{
    ident_start_byte(b) || (48 <= b && b <= 57)
}

/// True when `set` holds `b`; terminator sets for the opaque-text scanner.
pub fn byte_in(b: u8, set: &[u8]) -> (r: bool)
    ensures
        r == set@.contains(b),
{
    let mut k: usize = 0;
    while k < set.len()
        invariant
            k <= set@.len(),
            forall|j: int| 0 <= j < k ==> set@[j] != b,
        decreases set@.len() - k,
    {
        if set[k] == b {
            return true;
        }
        k = k + 1;
    }
    false
}

/// Copy of the byte range `[a, b)` of `s`.
pub fn subvec(s: &[u8], a: usize, b: usize) -> (r: Vec<u8>)
    requires
        a <= b <= s@.len(),
    ensures
        r@ == s@.subrange(a as int, b as int),
{
    let mut out: Vec<u8> = Vec::new();
    let mut k: usize = a;
    while k < b
        invariant
            a <= k <= b <= s@.len(),
            out@ == s@.subrange(a as int, k as int),
        decreases b - k,
    {
        out.push(s[k]);
        proof {
            assert(out@ =~= s@.subrange(a as int, k + 1));
        }
        k = k + 1;
    }
    out
}

/// Append all of `src` to `out`.
pub fn push_bytes(out: &mut Vec<u8>, src: &[u8])
    ensures
        final(out)@ == old(out)@ + src@,
{
    let mut k: usize = 0;
    while k < src.len()
        invariant
            k <= src@.len(),
            out@ == old(out)@ + src@.subrange(0, k as int),
        decreases src@.len() - k,
    {
        out.push(src[k]);
        proof {
            assert(out@ =~= old(out)@ + src@.subrange(0, k + 1));
        }
        k = k + 1;
    }
    proof {
        assert(out@ =~= old(out)@ + src@);
    }
}

/// True when the bytes of `s` from `i` on begin with `pat`.
pub fn starts_with_at(s: &[u8], i: usize, pat: &[u8]) -> (r: bool)
    requires
        i <= s@.len(),
    ensures
        r == (i + pat@.len() <= s@.len() && s@.subrange(i as int, i + pat@.len()) =~= pat@),
{
    if s.len() - i < pat.len() {
        return false;
    }
    let mut k: usize = 0;
    while k < pat.len()
        invariant
            i + pat@.len() <= s@.len(),
            s@.len() <= usize::MAX,
            k <= pat@.len(),
            forall|j: int| 0 <= j < k ==> s@[i + j] == pat@[j],
        decreases pat@.len() - k,
    {
        if s[i + k] != pat[k] {
            return false;
        }
        k = k + 1;
    }
    proof {
        assert(s@.subrange(i as int, i + pat@.len()) =~= pat@);
    }
    true
}

/// True when `suffix` ends `s`.
pub fn ends_with(s: &[u8], suffix: &[u8]) -> (r: bool)
    ensures
        r == (suffix@.len() <= s@.len() && s@.subrange(
            s@.len() - suffix@.len(),
            s@.len() as int,
        ) =~= suffix@),
{
    if suffix.len() > s.len() {
        return false;
    }
    starts_with_at(s, s.len() - suffix.len(), suffix)
}

/// Byte-wise lexicographic order, the order `sort` and `dedup` of the
/// original class lists go by.
pub open spec fn lex_le(a: Seq<u8>, b: Seq<u8>) -> bool
    decreases a.len(),
{
    if a.len() == 0 {
        true
    } else if b.len() == 0 {
        false
    } else if a[0] < b[0] {
        true
    } else if a[0] > b[0] {
        false
    } else {
        lex_le(a.skip(1), b.skip(1))
    }
}

pub proof fn lemma_lex_total(a: Seq<u8>, b: Seq<u8>)
    ensures
        lex_le(a, b) || lex_le(b, a),
    decreases a.len(),
{
    if a.len() != 0 && b.len() != 0 && a[0] == b[0] {
        lemma_lex_total(a.skip(1), b.skip(1));
    }
}

pub proof fn lemma_lex_antisym(a: Seq<u8>, b: Seq<u8>)
    requires
        lex_le(a, b),
        lex_le(b, a),
    ensures
        a == b,
    decreases a.len(),
{
    if a.len() == 0 {
        assert(b.len() == 0);
        assert(a =~= b);
    } else {
        assert(b.len() != 0);
        assert(a[0] == b[0]);
        lemma_lex_antisym(a.skip(1), b.skip(1));
        assert(a =~= seq![a[0]] + a.skip(1));
        assert(b =~= seq![b[0]] + b.skip(1));
    }
}

pub proof fn lemma_lex_trans(a: Seq<u8>, b: Seq<u8>, c: Seq<u8>)
    requires
        lex_le(a, b),
        lex_le(b, c),
    ensures
        lex_le(a, c),
    decreases a.len(),
{
    if a.len() != 0 && b.len() != 0 && c.len() != 0 && a[0] == b[0] && b[0] == c[0] {
        lemma_lex_trans(a.skip(1), b.skip(1), c.skip(1));
    }
}

/// Decides `lex_le` on byte strings.
pub fn bytes_le(a: &[u8], b: &[u8]) -> (r: bool)
    ensures
        r == lex_le(a@, b@),
{
    proof {
        assert(a@.skip(0) =~= a@);
        assert(b@.skip(0) =~= b@);
    }
    let mut k: usize = 0;
    while k < a.len() && k < b.len()
        invariant
            k <= a@.len(),
            k <= b@.len(),
            forall|j: int| 0 <= j < k ==> a@[j] == b@[j],
            lex_le(a@, b@) == lex_le(a@.skip(k as int), b@.skip(k as int)),
        decreases a@.len() - k,
    {
        if a[k] < b[k] {
            proof {
                assert(a@.skip(k as int)[0] == a@[k as int]);
            }
            return true;
        }
        if a[k] > b[k] {
            return false;
        }
        proof {
            assert(a@.skip(k as int)[0] == a@[k as int]);
            assert(b@.skip(k as int)[0] == b@[k as int]);
            assert(a@.skip(k as int).skip(1) =~= a@.skip(k + 1));
            assert(b@.skip(k as int).skip(1) =~= b@.skip(k + 1));
        }
        k = k + 1;
    }
    proof {
        if k >= a@.len() {
            assert(a@.skip(k as int).len() == 0);
        } else {
            assert(b@.skip(k as int).len() == 0);
            assert(a@.skip(k as int).len() != 0);
        }
    }
    a.len() <= b.len()
}

/// Equality of byte strings.
pub fn bytes_eq(a: &[u8], b: &[u8]) -> (r: bool)
    ensures
        r == (a@ =~= b@),
{
    if a.len() != b.len() {
        return false;
    }
    starts_with_at(a, 0, b)
}


/// Concatenation of `f` over all elements of `s`, in order.
pub open spec fn concat_map<A>(s: Seq<A>, f: spec_fn(A) -> Seq<u8>) -> Seq<u8>
    decreases s.len(),
{
    if s.len() == 0 {
        Seq::empty()
    } else {
        f(s[0]) + concat_map(s.skip(1), f)
    }
}

pub proof fn lemma_concat_map_push<A>(s: Seq<A>, f: spec_fn(A) -> Seq<u8>, x: A)
    ensures
        concat_map(s.push(x), f) == concat_map(s, f) + f(x),
    decreases s.len(),
{
    if s.len() == 0 {
        assert(s.push(x)[0] == x);
        assert(s.push(x).skip(1) =~= Seq::<A>::empty());
        assert(concat_map(s.push(x).skip(1), f) == Seq::<u8>::empty());
        assert(concat_map(s.push(x), f) == f(x) + Seq::<u8>::empty());
        assert(concat_map(s.push(x), f) =~= concat_map(s, f) + f(x));
    } else {
        assert(s.push(x)[0] == s[0]);
        assert(s.push(x).skip(1) =~= s.skip(1).push(x));
        lemma_concat_map_push(s.skip(1), f, x);
        assert(concat_map(s.push(x), f) == f(s[0]) + concat_map(s.skip(1).push(x), f));
        assert(concat_map(s.push(x), f) == f(s[0]) + (concat_map(s.skip(1), f) + f(x)));
        assert(concat_map(s, f) == f(s[0]) + concat_map(s.skip(1), f));
        assert(concat_map(s.push(x), f) =~= concat_map(s, f) + f(x));
    }
}

pub proof fn lemma_concat_map_take_snoc<A>(s: Seq<A>, f: spec_fn(A) -> Seq<u8>, k: int)
    requires
        0 <= k < s.len(),
    ensures
        concat_map(s.take(k + 1), f) == concat_map(s.take(k), f) + f(s[k]),
{
    assert(s.take(k + 1) =~= s.take(k).push(s[k]));
    lemma_concat_map_push(s.take(k), f, s[k]);
}

/// Splitting the concatenation at one element.
pub proof fn lemma_concat_map_split<A>(s: Seq<A>, f: spec_fn(A) -> Seq<u8>, k: int)
    requires
        0 <= k < s.len(),
    ensures
        concat_map(s, f) == concat_map(s.take(k), f) + f(s[k]) + concat_map(s.skip(k + 1), f),
    decreases k,
{
    if k == 0 {
        assert(s.take(0) =~= Seq::<A>::empty());
        assert(concat_map(s, f) =~= concat_map(s.take(0), f) + f(s[0]) + concat_map(s.skip(1), f));
    } else {
        lemma_concat_map_split(s.skip(1), f, k - 1);
        assert(s.skip(1)[k - 1] == s[k]);
        assert(s.skip(1).take(k - 1) =~= s.take(k).skip(1));
        assert(s.skip(1).skip(k) =~= s.skip(k + 1));
        assert(s.take(k)[0] == s[0]);
        assert(concat_map(s.take(k), f) == f(s[0]) + concat_map(s.take(k).skip(1), f));
        assert(concat_map(s, f) =~= concat_map(s.take(k), f) + f(s[k]) + concat_map(
            s.skip(k + 1),
            f,
        ));
    }
}


/// A fresh copy of a byte string.
pub fn copy_bytes(v: &[u8]) -> (r: Vec<u8>)
    ensures
        r@ == v@,
{
    let r = subvec(v, 0, v.len());
    proof {
        assert(v@.subrange(0, v@.len() as int) =~= v@);
    }
    r
}

} // verus!


