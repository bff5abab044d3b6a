use vstd::prelude::*;
use crate::text::{dec_rep, push_dec, string_to_chars, chars_to_string};
use crate::version::{Identifier, IdentV, Version, VersionV, CoreV};
use crate::order::idents_view;

verus! {

// ---------------------------------------------------------------------------
// Canonical rendering of versions: `major.minor.patch`, `-` and the
// dot-joined pre-release identifiers if any, `+` and the dot-joined build
// identifiers if any, all after a `v` when the version carries the prefix.
// ---------------------------------------------------------------------------

pub open spec fn render_ident(id: IdentV) -> Seq<char> {
    match id {
        IdentV::Num(n) => dec_rep(n as int),
        IdentV::Alpha(s) => s,
    }
}

/// Dot-joined rendering of an identifier sequence.
pub open spec fn render_idents(ids: Seq<IdentV>) -> Seq<char>
    decreases ids.len(),
{
    if ids.len() == 0 {
        Seq::empty()
    } else if ids.len() == 1 {
        render_ident(ids[0])
    } else {
        render_idents(ids.drop_last()) + seq!['.'] + render_ident(ids.last())
    }
}

pub open spec fn render_core(c: CoreV) -> Seq<char> {
    dec_rep(c.major as int) + seq!['.'] + dec_rep(c.minor as int) + seq!['.'] + dec_rep(
        c.patch as int,
    ) + (if c.pre.len() > 0 {
        seq!['-'] + render_idents(c.pre)
    } else {
        Seq::empty()
    }) + (if c.build.len() > 0 {
        seq!['+'] + render_idents(c.build)
    } else {
        Seq::empty()
    })
}

pub open spec fn render_version(v: VersionV) -> Seq<char> {
    (if v.v {
        seq!['v']
    } else {
        Seq::empty()
    }) + render_core(v.core)
}

/// A numeric identifier renders as the canonical decimal form of its value,
/// which a well-formed alphanumeric identifier never equals: identifiers of
/// different kinds never render alike, so the rendering loses nothing.
pub proof fn lemma_ident_kinds_render_apart(a: IdentV, b: IdentV)
    requires
        crate::version::wf_ident(a),
        crate::version::wf_ident(b),
        a is Num,
        b is Alpha,
    ensures
        render_ident(a) != render_ident(b),
{
    crate::text::lemma_dec_rep_digits(a->Num_0 as int);
    assert(crate::version::canonical_number(render_ident(a)));
}

// ---------------------------------------------------------------------------
// Executable rendering.
// ---------------------------------------------------------------------------

/// Appends the characters of a string.
pub fn push_str_chars(s: &str, out: &mut Vec<char>)
    ensures
        final(out)@ == old(out)@ + s@,
{
    let cs: Vec<char> = string_to_chars(s);
    let n: usize = cs.len();
    let mut i: usize = 0;
    while i < n
        invariant
            n == cs@.len(),
            cs@ == s@,
            i <= n,
            out@ == old(out)@ + cs@.subrange(0, i as int),
        decreases n - i,
    {
        out.push(cs[i]);
        i = i + 1;
        assert(out@ =~= old(out)@ + cs@.subrange(0, i as int));
    }
    assert(out@ =~= old(out)@ + s@);
}

fn push_ident(id: &Identifier, out: &mut Vec<char>)
    ensures
        final(out)@ == old(out)@ + render_ident(id@),
{
    match id {
        Identifier::Numeric(n) => push_dec(*n, out),
        Identifier::AlphaNumeric(s) => push_str_chars(s.as_str(), out),
    }
}

fn push_idents(ids: &Vec<Identifier>, out: &mut Vec<char>)
    ensures
        final(out)@ == old(out)@ + render_idents(idents_view(ids@)),
{
    let ghost vids = idents_view(ids@);
    let n: usize = ids.len();
    let mut i: usize = 0;
    proof {
        assert(vids.subrange(0, 0) =~= Seq::<IdentV>::empty());
        assert(render_idents(vids.subrange(0, 0)) =~= Seq::<char>::empty());
        assert(out@ =~= out@ + render_idents(vids.subrange(0, 0)));
    }
    while i < n
        invariant
            n == ids@.len(),
            vids == idents_view(ids@),
            vids.len() == n,
            i <= n,
            out@ == old(out)@ + render_idents(vids.subrange(0, i as int)),
        decreases n - i,
    {
        if i > 0 {
            out.push('.');
        }
        proof {
            assert(vids[i as int] == ids@[i as int]@);
        }
        push_ident(&ids[i], out);
        i = i + 1;
        proof {
            let pre = vids.subrange(0, i - 1);
            let cur = vids.subrange(0, i as int);
            assert(cur.drop_last() =~= pre);
            assert(cur.last() == vids[i - 1]);
            if i == 1 {
                assert(render_idents(cur) == render_ident(vids[0]));
                assert(out@ =~= old(out)@ + render_idents(cur));
            } else {
                assert(render_idents(cur) == render_idents(pre) + seq!['.'] + render_ident(
                    vids[i - 1],
                ));
                assert(out@ =~= old(out)@ + render_idents(cur));
            }
        }
    }
    proof {
        assert(vids.subrange(0, n as int) =~= vids);
    }
}

impl Version {
    /// The canonical text of this version, `v`-prefixed when parsed so.
    pub fn display(&self) -> (r: String)
        ensures
            r@ == render_version(self@),
    {
        let mut out: Vec<char> = Vec::new();
        if self.v {
            out.push('v');
        }
        push_core_chars(&self.inner, &mut out);
        proof {
            assert(out@ =~= render_version(self@));
        }
        chars_to_string(&out)
    }
}

/// Appends the canonical rendering of a version core.
pub fn push_core_chars(c: &crate::version::VersionCore, out: &mut Vec<char>)
    ensures
        final(out)@ == old(out)@ + render_core(c@),
{
    push_dec(c.major, out);
    out.push('.');
    push_dec(c.minor, out);
    out.push('.');
    push_dec(c.patch, out);
    if c.pre.len() > 0 {
        out.push('-');
        push_idents(&c.pre, out);
    }
    if c.build.len() > 0 {
        out.push('+');
        push_idents(&c.build, out);
    }
    proof {
        assert(idents_view(c.pre@).len() == c.pre@.len());
        assert(idents_view(c.build@).len() == c.build@.len());
        assert(out@ =~= old(out)@ + render_core(c@));
    }
}

} // verus!
