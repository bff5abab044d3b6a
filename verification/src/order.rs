use vstd::prelude::*;
use crate::version::{Identifier, IdentV, Version, VersionV};

verus! {

// ---------------------------------------------------------------------------
// Semantic-version precedence.
//
// Versions are compared by major, minor and patch number, then by
// pre-release: a version with a pre-release precedes the same version
// without one, and two pre-releases are compared identifier by identifier
// (numeric before alphanumeric, numbers numerically, text by character
// code, a strict prefix first).  Build metadata and the display-only `v`
// prefix never take part, so equality here is coarser than structural
// equality.
// ---------------------------------------------------------------------------

/// Strict lexicographic order on character sequences, by character code.
pub open spec fn chars_lt(a: Seq<char>, b: Seq<char>) -> bool
    decreases a.len(),
{
    if a.len() == 0 {
        b.len() > 0
    } else if b.len() == 0 {
        false
    } else if (a[0] as u32) < (b[0] as u32) {
        true
    } else if a[0] == b[0] {
        chars_lt(a.subrange(1, a.len() as int), b.subrange(1, b.len() as int))
    } else {
        false
    }
}

pub open spec fn ident_eq(a: IdentV, b: IdentV) -> bool {
    match (a, b) {
        (IdentV::Num(x), IdentV::Num(y)) => x == y,
        (IdentV::Alpha(x), IdentV::Alpha(y)) => x == y,
        _ => false,
    }
}

/// Numeric identifiers order numerically and precede alphanumeric ones;
/// alphanumeric identifiers order by character code.
pub open spec fn ident_lt(a: IdentV, b: IdentV) -> bool {
    match (a, b) {
        (IdentV::Num(x), IdentV::Num(y)) => x < y,
        (IdentV::Num(_), IdentV::Alpha(_)) => true,
        (IdentV::Alpha(_), IdentV::Num(_)) => false,
        (IdentV::Alpha(x), IdentV::Alpha(y)) => chars_lt(x, y),
    }
}

pub open spec fn idents_eq(a: Seq<IdentV>, b: Seq<IdentV>) -> bool {
    a.len() == b.len() && forall|i: int| 0 <= i < a.len() ==> ident_eq(#[trigger] a[i], b[i])
}

/// Strict lexicographic order on identifier sequences.
pub open spec fn idents_lt(a: Seq<IdentV>, b: Seq<IdentV>) -> bool
    decreases a.len(),
{
    if a.len() == 0 {
        b.len() > 0
    } else if b.len() == 0 {
        false
    } else if ident_lt(a[0], b[0]) {
        true
    } else if ident_eq(a[0], b[0]) {
        idents_lt(a.subrange(1, a.len() as int), b.subrange(1, b.len() as int))
    } else {
        false
    }
}

/// Pre-release order: any pre-release precedes the empty one.
pub open spec fn pre_lt(a: Seq<IdentV>, b: Seq<IdentV>) -> bool {
    if a.len() == 0 {
        false
    } else if b.len() == 0 {
        true
    } else {
        idents_lt(a, b)
    }
}

/// Version equality: core fields except build metadata.
pub open spec fn version_eq_spec(a: VersionV, b: VersionV) -> bool {
    &&& a.core.major == b.core.major
    &&& a.core.minor == b.core.minor
    &&& a.core.patch == b.core.patch
    &&& idents_eq(a.core.pre, b.core.pre)
}

/// Strict version precedence.
pub open spec fn version_lt_spec(a: VersionV, b: VersionV) -> bool {
    if a.core.major != b.core.major {
        a.core.major < b.core.major
    } else if a.core.minor != b.core.minor {
        a.core.minor < b.core.minor
    } else if a.core.patch != b.core.patch {
        a.core.patch < b.core.patch
    } else {
        pre_lt(a.core.pre, b.core.pre)
    }
}

pub open spec fn version_le_spec(a: VersionV, b: VersionV) -> bool {
    version_lt_spec(a, b) || version_eq_spec(a, b)
}

// ---------------------------------------------------------------------------
// The precedence relation is a total preorder whose kernel is version
// equality.  These laws carry the sorting and diffing proofs.
// ---------------------------------------------------------------------------

proof fn lemma_chars_lt_irrefl(a: Seq<char>)
    ensures
        !chars_lt(a, a),
    decreases a.len(),
{
    if a.len() > 0 {
        lemma_chars_lt_irrefl(a.subrange(1, a.len() as int));
    }
}

proof fn lemma_chars_lt_connex(a: Seq<char>, b: Seq<char>)
    ensures
        chars_lt(a, b) || chars_lt(b, a) || a == b,
    decreases a.len(),
{
    if a.len() == 0 && b.len() == 0 {
        assert(a =~= b);
    } else if a.len() == 0 {
        assert(chars_lt(a, b));
    } else if b.len() == 0 {
        assert(chars_lt(b, a));
    } else if (a[0] as u32) < (b[0] as u32) {
        assert(chars_lt(a, b));
    } else if a[0] != b[0] {
        vstd::utf8::char_u32_cast(a[0], a[0] as u32);
        vstd::utf8::char_u32_cast(b[0], b[0] as u32);
        assert((b[0] as u32) < (a[0] as u32));
        assert(chars_lt(b, a));
    } else {
        let ta = a.subrange(1, a.len() as int);
        let tb = b.subrange(1, b.len() as int);
        lemma_chars_lt_connex(ta, tb);
        if ta == tb {
            assert(ta.len() == a.len() - 1);
            assert(tb.len() == b.len() - 1);
            assert(a.len() == b.len());
            assert forall|i: int| 0 <= i < a.len() implies a[i] == b[i] by {
                if i > 0 {
                    assert(ta[i - 1] == a.subrange(1, a.len() as int)[i - 1]);
                    assert(a.subrange(1, a.len() as int)[i - 1] == a[i]);
                    assert(b.subrange(1, b.len() as int)[i - 1] == b[i]);
                    assert(ta[i - 1] == tb[i - 1]);
                }
            }
            assert(a =~= b);
        }
    }
}

proof fn lemma_chars_lt_asym(a: Seq<char>, b: Seq<char>)
    requires
        chars_lt(a, b),
    ensures
        !chars_lt(b, a),
        a != b,
    decreases a.len(),
{
    if a.len() > 0 && b.len() > 0 && a[0] == b[0] {
        lemma_chars_lt_asym(a.subrange(1, a.len() as int), b.subrange(1, b.len() as int));
        assert(a != b) by {
            if a == b {
                assert(a.subrange(1, a.len() as int) == b.subrange(1, b.len() as int));
            }
        }
    }
}

proof fn lemma_chars_lt_trans(a: Seq<char>, b: Seq<char>, c: Seq<char>)
    requires
        chars_lt(a, b),
        chars_lt(b, c),
    ensures
        chars_lt(a, c),
    decreases a.len(),
{
    if a.len() > 0 && b.len() > 0 && c.len() > 0 && a[0] == b[0] && b[0] == c[0] {
        lemma_chars_lt_trans(
            a.subrange(1, a.len() as int),
            b.subrange(1, b.len() as int),
            c.subrange(1, c.len() as int),
        );
    } else if a.len() > 0 && b.len() > 0 && c.len() > 0 {
        vstd::utf8::char_u32_cast(a[0], a[0] as u32);
        vstd::utf8::char_u32_cast(b[0], b[0] as u32);
        vstd::utf8::char_u32_cast(c[0], c[0] as u32);
    }
}

proof fn lemma_ident_connex(a: IdentV, b: IdentV)
    ensures
        ident_lt(a, b) || ident_lt(b, a) || ident_eq(a, b),
{
    match (a, b) {
        (IdentV::Alpha(x), IdentV::Alpha(y)) => {
            lemma_chars_lt_connex(x, y);
        },
        _ => {},
    }
}

proof fn lemma_ident_asym(a: IdentV, b: IdentV)
    requires
        ident_lt(a, b),
    ensures
        !ident_lt(b, a),
        !ident_eq(a, b),
        !ident_eq(b, a),
{
    match (a, b) {
        (IdentV::Alpha(x), IdentV::Alpha(y)) => {
            lemma_chars_lt_asym(x, y);
        },
        _ => {},
    }
}

proof fn lemma_ident_eq_not_lt(a: IdentV, b: IdentV)
    requires
        ident_eq(a, b),
    ensures
        !ident_lt(a, b),
        !ident_lt(b, a),
        ident_eq(b, a),
{
    match (a, b) {
        (IdentV::Alpha(x), IdentV::Alpha(y)) => {
            lemma_chars_lt_irrefl(x);
        },
        _ => {},
    }
}

proof fn lemma_ident_trans(a: IdentV, b: IdentV, c: IdentV)
    requires
        ident_lt(a, b),
        ident_lt(b, c),
    ensures
        ident_lt(a, c),
{
    match (a, b, c) {
        (IdentV::Alpha(x), IdentV::Alpha(y), IdentV::Alpha(z)) => {
            lemma_chars_lt_trans(x, y, z);
        },
        _ => {},
    }
}

proof fn lemma_ident_eq_lt(a: IdentV, b: IdentV, c: IdentV)
    requires
        ident_eq(a, b),
    ensures
        ident_lt(a, c) == ident_lt(b, c),
        ident_lt(c, a) == ident_lt(c, b),
        ident_eq(a, c) == ident_eq(b, c),
{
}

/// Unfolds identifier-sequence equality one identifier at a time.
proof fn lemma_idents_eq_unfold(a: Seq<IdentV>, b: Seq<IdentV>)
    requires
        a.len() > 0,
        a.len() == b.len(),
    ensures
        idents_eq(a, b) == (ident_eq(a[0], b[0]) && idents_eq(
            a.subrange(1, a.len() as int),
            b.subrange(1, b.len() as int),
        )),
{
    let ta = a.subrange(1, a.len() as int);
    let tb = b.subrange(1, b.len() as int);
    assert(forall|i: int| 0 <= i < ta.len() ==> #[trigger] ta[i] == a[i + 1] && tb[i] == b[i + 1]);
    if idents_eq(a, b) {
        assert(forall|i: int| 0 <= i < ta.len() ==> ident_eq(#[trigger] ta[i], tb[i]));
    } else if ident_eq(a[0], b[0]) && idents_eq(ta, tb) {
        assert forall|i: int| 0 <= i < a.len() implies ident_eq(#[trigger] a[i], b[i]) by {
            if i > 0 {
                assert(ident_eq(ta[i - 1], tb[i - 1]));
            }
        }
    }
}

proof fn lemma_idents_connex(a: Seq<IdentV>, b: Seq<IdentV>)
    ensures
        idents_lt(a, b) || idents_lt(b, a) || idents_eq(a, b),
    decreases a.len(),
{
    if a.len() == 0 || b.len() == 0 {
    } else {
        lemma_ident_connex(a[0], b[0]);
        if !ident_lt(a[0], b[0]) && !ident_lt(b[0], a[0]) {
            assert(ident_eq(a[0], b[0]));
            lemma_ident_eq_not_lt(a[0], b[0]);
            let ta = a.subrange(1, a.len() as int);
            let tb = b.subrange(1, b.len() as int);
            lemma_idents_connex(ta, tb);
            if idents_eq(ta, tb) {
                lemma_idents_eq_unfold(a, b);
            }
        }
    }
}

proof fn lemma_idents_asym(a: Seq<IdentV>, b: Seq<IdentV>)
    requires
        idents_lt(a, b),
    ensures
        !idents_lt(b, a),
        !idents_eq(a, b),
        !idents_eq(b, a),
    decreases a.len(),
{
    if a.len() > 0 && b.len() > 0 {
        if ident_lt(a[0], b[0]) {
            lemma_ident_asym(a[0], b[0]);
        } else {
            assert(ident_eq(a[0], b[0]));
            lemma_ident_eq_not_lt(a[0], b[0]);
            lemma_idents_asym(a.subrange(1, a.len() as int), b.subrange(1, b.len() as int));
            if a.len() == b.len() {
                lemma_idents_eq_unfold(a, b);
                lemma_idents_eq_unfold(b, a);
            }
        }
    }
}

proof fn lemma_idents_trans(a: Seq<IdentV>, b: Seq<IdentV>, c: Seq<IdentV>)
    requires
        idents_lt(a, b),
        idents_lt(b, c),
    ensures
        idents_lt(a, c),
    decreases a.len(),
{
    if a.len() > 0 && b.len() > 0 && c.len() > 0 {
        if ident_lt(a[0], b[0]) {
            if ident_lt(b[0], c[0]) {
                lemma_ident_trans(a[0], b[0], c[0]);
            } else {
                assert(ident_eq(b[0], c[0]));
                lemma_ident_eq_lt(b[0], c[0], a[0]);
            }
        } else {
            assert(ident_eq(a[0], b[0]));
            lemma_ident_eq_lt(a[0], b[0], c[0]);
            if !ident_lt(b[0], c[0]) {
                lemma_idents_trans(
                    a.subrange(1, a.len() as int),
                    b.subrange(1, b.len() as int),
                    c.subrange(1, c.len() as int),
                );
            }
        }
    }
}

proof fn lemma_idents_eq_lt(a: Seq<IdentV>, b: Seq<IdentV>, c: Seq<IdentV>)
    requires
        idents_eq(a, b),
    ensures
        idents_lt(a, c) == idents_lt(b, c),
        idents_lt(c, a) == idents_lt(c, b),
    decreases a.len(),
{
    if a.len() > 0 && c.len() > 0 {
        lemma_ident_eq_lt(a[0], b[0], c[0]);
        assert(idents_eq(
            a.subrange(1, a.len() as int),
            b.subrange(1, b.len() as int),
        )) by {
            assert(forall|i: int|
                0 <= i < a.len() - 1 ==> ident_eq(
                    #[trigger] a.subrange(1, a.len() as int)[i],
                    b.subrange(1, b.len() as int)[i],
                )) by {
                assert(forall|i: int|
                    0 <= i < a.len() - 1 ==> a.subrange(1, a.len() as int)[i] == a[i + 1]
                        && b.subrange(1, b.len() as int)[i] == b[i + 1]);
            }
        }
        lemma_idents_eq_lt(
            a.subrange(1, a.len() as int),
            b.subrange(1, b.len() as int),
            c.subrange(1, c.len() as int),
        );
    }
}

/// Any two versions compare: the precedence order is total.
pub proof fn lemma_version_le_total(a: VersionV, b: VersionV)
    ensures
        version_le_spec(a, b) || version_le_spec(b, a),
{
    lemma_idents_connex(a.core.pre, b.core.pre);
}

/// Precedence is transitive.
pub proof fn lemma_version_le_trans(a: VersionV, b: VersionV, c: VersionV)
    requires
        version_le_spec(a, b),
        version_le_spec(b, c),
    ensures
        version_le_spec(a, c),
{
    let pa = a.core.pre;
    let pb = b.core.pre;
    let pc = c.core.pre;
    if version_eq_spec(a, b) && version_eq_spec(b, c) {
        lemma_idents_eq_lt(pa, pb, pc);
        assert(idents_eq(pa, pc)) by {
            assert(forall|i: int|
                0 <= i < pa.len() ==> (ident_eq(#[trigger] pa[i], pb[i]) && ident_eq(
                    pb[i],
                    pc[i],
                ) ==> ident_eq(pa[i], pc[i])));
        }
    } else if version_eq_spec(a, b) {
        lemma_idents_eq_lt(pa, pb, pc);
    } else if version_eq_spec(b, c) {
        lemma_idents_eq_lt(pb, pc, pa);
    } else {
        if a.core.major == c.core.major && a.core.minor == c.core.minor && a.core.patch
            == c.core.patch && pre_lt(pa, pb) && pre_lt(pb, pc) && pc.len() > 0 {
            lemma_idents_trans(pa, pb, pc);
        }
    }
}

/// Versions that compare both ways are equal under version equality.
pub proof fn lemma_version_le_antisym(a: VersionV, b: VersionV)
    requires
        version_le_spec(a, b),
        version_le_spec(b, a),
    ensures
        version_eq_spec(a, b),
{
    if !version_eq_spec(a, b) && !version_eq_spec(b, a) {
        if pre_lt(a.core.pre, b.core.pre) && pre_lt(b.core.pre, a.core.pre) {
            lemma_idents_asym(a.core.pre, b.core.pre);
        }
    } else if version_eq_spec(b, a) {
        assert(idents_eq(a.core.pre, b.core.pre)) by {
            assert(forall|i: int|
                0 <= i < a.core.pre.len() ==> (ident_eq(
                    #[trigger] b.core.pre[i],
                    a.core.pre[i],
                ) ==> ident_eq(a.core.pre[i], b.core.pre[i])));
        }
    }
}

/// Versions with equal cores are equal under version equality.
pub proof fn lemma_version_eq_refl_core(a: VersionV, b: VersionV)
    requires
        a.core == b.core,
    ensures
        version_eq_spec(a, b),
{
}

/// Version equality is symmetric and transitive.
pub proof fn lemma_version_eq_symm(a: VersionV, b: VersionV)
    requires
        version_eq_spec(a, b),
    ensures
        version_eq_spec(b, a),
{
    assert(forall|i: int|
        0 <= i < b.core.pre.len() ==> (ident_eq(
            #[trigger] a.core.pre[i],
            b.core.pre[i],
        ) ==> ident_eq(b.core.pre[i], a.core.pre[i])));
}

pub proof fn lemma_version_eq_trans(a: VersionV, b: VersionV, c: VersionV)
    requires
        version_eq_spec(a, b),
        version_eq_spec(b, c),
    ensures
        version_eq_spec(a, c),
{
    assert(forall|i: int|
        0 <= i < a.core.pre.len() ==> (ident_eq(#[trigger] a.core.pre[i], b.core.pre[i])
            && ident_eq(b.core.pre[i], c.core.pre[i]) ==> ident_eq(
            a.core.pre[i],
            c.core.pre[i],
        )));
}

// ---------------------------------------------------------------------------
// Executable comparisons.
// ---------------------------------------------------------------------------

/// Strict lexicographic comparison of two strings by character code.
fn str_chars_lt(a: &str, b: &str) -> (r: bool)
    ensures
        r == chars_lt(a@, b@),
{
    let an: usize = a.unicode_len();
    let bn: usize = b.unicode_len();
    let mut i: usize = 0;
    proof {
        assert(a@.subrange(0, an as int) =~= a@);
        assert(b@.subrange(0, bn as int) =~= b@);
    }
    while i < an && i < bn
        invariant
            an == a@.len(),
            bn == b@.len(),
            i <= an,
            i <= bn,
            chars_lt(a@, b@) == chars_lt(
                a@.subrange(i as int, an as int),
                b@.subrange(i as int, bn as int),
            ),
        decreases an - i,
    {
        let ca: char = a.get_char(i);
        let cb: char = b.get_char(i);
        let ghost sa = a@.subrange(i as int, an as int);
        let ghost sb = b@.subrange(i as int, bn as int);
        proof {
            assert(sa[0] == ca && sb[0] == cb);
        }
        if (ca as u32) < (cb as u32) {
            return true;
        }
        if ca != cb {
            return false;
        }
        proof {
            assert(sa.subrange(1, sa.len() as int) =~= a@.subrange(i + 1, an as int));
            assert(sb.subrange(1, sb.len() as int) =~= b@.subrange(i + 1, bn as int));
        }
        i = i + 1;
    }
    proof {
        if i >= an {
            assert(a@.subrange(i as int, an as int) =~= Seq::<char>::empty());
        } else {
            assert(b@.subrange(i as int, bn as int) =~= Seq::<char>::empty());
        }
    }
    an < bn
}

fn ident_eq_exec(a: &Identifier, b: &Identifier) -> (r: bool)
    ensures
        r == ident_eq(a@, b@),
{
    match (a, b) {
        (Identifier::Numeric(x), Identifier::Numeric(y)) => *x == *y,
        (Identifier::AlphaNumeric(x), Identifier::AlphaNumeric(y)) => x.eq(y),
        _ => false,
    }
}

fn ident_lt_exec(a: &Identifier, b: &Identifier) -> (r: bool)
    ensures
        r == ident_lt(a@, b@),
{
    match (a, b) {
        (Identifier::Numeric(x), Identifier::Numeric(y)) => *x < *y,
        (Identifier::Numeric(_), Identifier::AlphaNumeric(_)) => true,
        (Identifier::AlphaNumeric(_), Identifier::Numeric(_)) => false,
        (Identifier::AlphaNumeric(x), Identifier::AlphaNumeric(y)) => str_chars_lt(
            x.as_str(),
            y.as_str(),
        ),
    }
}

/// The view of an identifier vector.
pub open spec fn idents_view(v: Seq<Identifier>) -> Seq<IdentV> {
    v.map_values(|i: Identifier| i@)
}

fn idents_eq_exec(a: &Vec<Identifier>, b: &Vec<Identifier>) -> (r: bool)
    ensures
        r == idents_eq(idents_view(a@), idents_view(b@)),
{
    if a.len() != b.len() {
        return false;
    }
    let n: usize = a.len();
    let mut i: usize = 0;
    while i < n
        invariant
            n == a@.len() == b@.len(),
            i <= n,
            forall|k: int| 0 <= k < i ==> ident_eq(#[trigger] a@[k]@, b@[k]@),
        decreases n - i,
    {
        if !ident_eq_exec(&a[i], &b[i]) {
            proof {
                assert(idents_view(a@)[i as int] == a@[i as int]@);
                assert(idents_view(b@)[i as int] == b@[i as int]@);
            }
            return false;
        }
        i = i + 1;
    }
    proof {
        assert(forall|k: int|
            0 <= k < n ==> idents_view(a@)[k] == a@[k]@ && idents_view(b@)[k] == b@[k]@);
    }
    true
}

fn idents_lt_exec(a: &Vec<Identifier>, b: &Vec<Identifier>) -> (r: bool)
    ensures
        r == idents_lt(idents_view(a@), idents_view(b@)),
{
    let ghost va = idents_view(a@);
    let ghost vb = idents_view(b@);
    let an: usize = a.len();
    let bn: usize = b.len();
    let mut i: usize = 0;
    proof {
        assert(va.subrange(0, an as int) =~= va);
        assert(vb.subrange(0, bn as int) =~= vb);
    }
    while i < an && i < bn
        invariant
            an == a@.len(),
            bn == b@.len(),
            va == idents_view(a@),
            vb == idents_view(b@),
            i <= an,
            i <= bn,
            idents_lt(va, vb) == idents_lt(
                va.subrange(i as int, an as int),
                vb.subrange(i as int, bn as int),
            ),
        decreases an - i,
    {
        let ghost sa = va.subrange(i as int, an as int);
        let ghost sb = vb.subrange(i as int, bn as int);
        proof {
            assert(sa[0] == va[i as int] && sb[0] == vb[i as int]);
            assert(va[i as int] == a@[i as int]@ && vb[i as int] == b@[i as int]@);
        }
        if ident_lt_exec(&a[i], &b[i]) {
            return true;
        }
        if !ident_eq_exec(&a[i], &b[i]) {
            return false;
        }
        proof {
            assert(sa.subrange(1, sa.len() as int) =~= va.subrange(i + 1, an as int));
            assert(sb.subrange(1, sb.len() as int) =~= vb.subrange(i + 1, bn as int));
        }
        i = i + 1;
    }
    proof {
        if i >= an {
            assert(va.subrange(i as int, an as int) =~= Seq::<IdentV>::empty());
        } else {
            assert(vb.subrange(i as int, bn as int) =~= Seq::<IdentV>::empty());
        }
    }
    an < bn
}

/// Version equality: precedence-relevant fields only.
pub fn version_eq(a: &Version, b: &Version) -> (r: bool)
    ensures
        r == version_eq_spec(a@, b@),
{
    a.inner.major == b.inner.major && a.inner.minor == b.inner.minor && a.inner.patch
        == b.inner.patch && idents_eq_exec(&a.inner.pre, &b.inner.pre)
}

/// Strict version precedence.
pub fn version_lt(a: &Version, b: &Version) -> (r: bool)
    ensures
        r == version_lt_spec(a@, b@),
{
    if a.inner.major != b.inner.major {
        a.inner.major < b.inner.major
    } else if a.inner.minor != b.inner.minor {
        a.inner.minor < b.inner.minor
    } else if a.inner.patch != b.inner.patch {
        a.inner.patch < b.inner.patch
    } else if a.inner.pre.len() == 0 {
        false
    } else if b.inner.pre.len() == 0 {
        proof {
            assert(idents_view(a.inner.pre@).len() == a.inner.pre@.len());
            assert(idents_view(b.inner.pre@).len() == b.inner.pre@.len());
        }
        true
    } else {
        idents_lt_exec(&a.inner.pre, &b.inner.pre)
    }
}

/// Non-strict version precedence.
pub fn version_le(a: &Version, b: &Version) -> (r: bool)
    ensures
        r == version_le_spec(a@, b@),
{
    if version_lt(a, b) {
        true
    } else {
        version_eq(a, b)
    }
}

impl PartialEq for Version {
    /// Version equality ignores the `v` prefix and build metadata.
    fn eq(&self, other: &Version) -> (r: bool) {
        version_eq(self, other)
    }
}

impl vstd::std_specs::cmp::PartialEqSpecImpl for Version {
    open spec fn obeys_eq_spec() -> bool {
        true
    }

    open spec fn eq_spec(&self, other: &Version) -> bool {
        version_eq_spec(self@, other@)
    }
}

} // verus!
