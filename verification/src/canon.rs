use vstd::prelude::*;
use crate::text::{is_digit, is_ident_char, all_digits, digits_val, dec_rep, parse_dec,
    chars_substring, lemma_dec_rep_digits, lemma_canonical_dec_rep};
use crate::version::{Identifier, IdentV, Version, VersionCore, VersionV, wf_ident, wf_idents,
    wf_version, canonical_number};
use crate::render::{render_ident, render_idents, render_version};
use crate::order::idents_view;

verus! {

// ---------------------------------------------------------------------------
// Reading canonical version text back: the exact inverse of `render`.
// Each layer's contract has both directions — what a success consumed, and
// that on any canonical rendering the parse cannot fail — so the shard-file
// reader below owes nothing to the outside version grammar.
// ---------------------------------------------------------------------------

fn is_digit_exec(c: char) -> (r: bool)
    ensures
        r == is_digit(c),
{
    (c as u32) >= ('0' as u32) && (c as u32) <= ('9' as u32)
}

fn is_ident_char_exec(c: char) -> (r: bool)
    ensures
        r == is_ident_char(c),
{
    is_digit_exec(c) || ((c as u32) >= ('a' as u32) && (c as u32) <= ('z' as u32)) || ((c
        as u32) >= ('A' as u32) && (c as u32) <= ('Z' as u32)) || c == '-'
}

/// Parses the canonical decimal number at `from`: the maximal digit run,
/// rejected unless it is non-empty, has no spurious leading zero, and fits.
fn parse_dec_run(cs: &Vec<char>, from: usize, to: usize) -> (r: Option<(u64, usize)>)
    requires
        from <= to <= cs@.len(),
    ensures
        r matches Some(p) ==> {
            &&& from < p.1 <= to
            &&& cs@.subrange(from as int, p.1 as int) == dec_rep(p.0 as int)
            &&& (p.1 == to || !is_digit(cs@[p.1 as int]))
        },
        forall|n: u64, e: int|
            #![trigger dec_rep(n as int), cs@.subrange(from as int, e)]
            from <= e <= to && cs@.subrange(from as int, e) == dec_rep(n as int) && (e == to
                || !is_digit(cs@[e])) ==> r == Some((n, e as usize)),
{
    let mut j: usize = from;
    while j < to && is_digit_exec(cs[j])
        invariant
            from <= j <= to <= cs@.len(),
            forall|k: int| from <= k < j ==> is_digit(#[trigger] cs@[k]),
        decreases to - j,
    {
        j = j + 1;
    }
    // `j` is the end of the maximal digit run; any rendered number here
    // occupies exactly that run.
    proof {
        assert forall|n: u64, e: int|
            from <= e <= to && cs@.subrange(from as int, e) == dec_rep(n as int) && (e == to
                || !is_digit(cs@[e])) implies e == j as int by {
            lemma_dec_rep_digits(n as int);
            assert(forall|k: int|
                from <= k < e ==> #[trigger] cs@[k] == dec_rep(n as int)[k - from]);
            if e < j {
                assert(is_digit(cs@[e]));
            }
            if e > j {
                assert(is_digit(cs@[j as int]));
            }
        }
    }
    if j == from {
        proof {
            assert forall|n: u64, e: int|
                from <= e <= to && cs@.subrange(from as int, e) == dec_rep(n as int) && (e
                    == to || !is_digit(cs@[e])) implies false by {
                lemma_dec_rep_digits(n as int);
                assert(cs@.subrange(from as int, e).len() == dec_rep(n as int).len());
            }
        }
        return None;
    }
    let ghost run = cs@.subrange(from as int, j as int);
    proof {
        assert(all_digits(run));
        assert(run[0] == cs@[from as int]);
    }
    if cs[from] == '0' && j - from > 1 {
        proof {
            assert forall|n: u64, e: int|
                from <= e <= to && cs@.subrange(from as int, e) == dec_rep(n as int) && (e
                    == to || !is_digit(cs@[e])) implies false by {
                lemma_dec_rep_digits(n as int);
                assert(e == j as int);
                assert(dec_rep(n as int)[0] == cs@[from as int]);
                assert(dec_rep(n as int).len() > 1);
            }
        }
        return None;
    }
    match parse_dec(cs, from, j) {
        Some(v) => {
            proof {
                lemma_canonical_dec_rep(run);
                assert(run == dec_rep(v as int));
                assert forall|n: u64, e: int|
                    from <= e <= to && cs@.subrange(from as int, e) == dec_rep(n as int) && (
                    e == to || !is_digit(cs@[e])) implies Some((v, j)) == Some::<(u64, usize)>(
                    (n, e as usize),
                ) by {
                    lemma_dec_rep_digits(n as int);
                    assert(e == j as int);
                    assert(digits_val(run) == n);
                }
            }
            Some((v, j))
        },
        None => {
            proof {
                assert forall|n: u64, e: int|
                    from <= e <= to && cs@.subrange(from as int, e) == dec_rep(n as int) && (
                    e == to || !is_digit(cs@[e])) implies false by {
                    lemma_dec_rep_digits(n as int);
                    assert(e == j as int);
                    assert(digits_val(run) == n);
                }
            }
            None
        },
    }
}

/// Parses one identifier at `from`: the maximal identifier-character run,
/// numeric exactly when it is a canonical number.
fn parse_ident_at(cs: &Vec<char>, from: usize, to: usize) -> (r: Option<(Identifier, usize)>)
    requires
        from <= to <= cs@.len(),
    ensures
        r matches Some(p) ==> {
            &&& from < p.1 <= to
            &&& cs@.subrange(from as int, p.1 as int) == render_ident(p.0@)
            &&& wf_ident(p.0@)
            &&& (p.1 == to || !is_ident_char(cs@[p.1 as int]))
        },
        forall|id: IdentV, e: int|
            #![trigger render_ident(id), cs@.subrange(from as int, e)]
            wf_ident(id) && from <= e <= to && cs@.subrange(from as int, e) == render_ident(id)
                && (e == to || !is_ident_char(cs@[e])) ==> (r matches Some(p) && p.0@ == id
                && p.1 == e),
{
    let mut j: usize = from;
    while j < to && is_ident_char_exec(cs[j])
        invariant
            from <= j <= to <= cs@.len(),
            forall|k: int| from <= k < j ==> is_ident_char(#[trigger] cs@[k]),
        decreases to - j,
    {
        j = j + 1;
    }
    // Any rendered identifier here occupies exactly the maximal run.
    proof {
        assert forall|id: IdentV, e: int|
            wf_ident(id) && from <= e <= to && cs@.subrange(from as int, e) == render_ident(id)
                && (e == to || !is_ident_char(cs@[e])) implies e == j as int
            && render_ident(id).len() > 0 by {
            lemma_render_ident_chars(id);
            assert(forall|k: int|
                from <= k < e ==> #[trigger] cs@[k] == render_ident(id)[k - from]);
            if e < j {
                assert(is_ident_char(cs@[e]));
            }
            if e > j {
                assert(is_ident_char(cs@[j as int]));
            }
        }
    }
    if j == from {
        proof {
            assert forall|id: IdentV, e: int|
                wf_ident(id) && from <= e <= to && cs@.subrange(from as int, e) == render_ident(
                    id,
                ) && (e == to || !is_ident_char(cs@[e])) implies false by {
                assert(cs@.subrange(from as int, e).len() == render_ident(id).len());
            }
        }
        return None;
    }
    let ghost run = cs@.subrange(from as int, j as int);
    // Classify: a canonical number is numeric, anything else alphanumeric.
    let mut digits_only: bool = true;
    let mut k: usize = from;
    while k < j
        invariant
            from <= k <= j <= cs@.len(),
            digits_only == all_digits(cs@.subrange(from as int, k as int)),
        decreases j - k,
    {
        let ghost pre = cs@.subrange(from as int, k as int);
        let ghost cur = cs@.subrange(from as int, k + 1);
        proof {
            assert(forall|t: int| 0 <= t < pre.len() ==> #[trigger] cur[t] == pre[t]);
            assert(cur[k - from] == cs@[k as int]);
        }
        if !is_digit_exec(cs[k]) {
            digits_only = false;
            proof {
                assert(!all_digits(cur));
            }
        } else {
            proof {
                if all_digits(pre) {
                    assert forall|t: int| 0 <= t < cur.len() implies is_digit(
                        #[trigger] cur[t],
                    ) by {
                        if t < pre.len() {
                            assert(cur[t] == pre[t]);
                        }
                    }
                }
            }
        }
        k = k + 1;
    }
    proof {
        assert(cs@.subrange(from as int, j as int) =~= run);
    }
    let numeric: Option<u64> = if digits_only && (cs[from] != '0' || j - from == 1) {
        parse_dec(cs, from, j)
    } else {
        None
    };
    proof {
        // The numeric check mirrors `canonical_number` exactly.
        assert(run[0] == cs@[from as int]);
        match numeric {
            Some(v) => {
                lemma_canonical_dec_rep(run);
                assert(canonical_number(run));
            },
            None => {
                assert(!canonical_number(run));
            },
        }
    }
    let r: Option<(Identifier, usize)> = match numeric {
        Some(v) => Some((Identifier::Numeric(v), j)),
        None => Some((Identifier::AlphaNumeric(chars_substring(cs, from, j)), j)),
    };
    proof {
        assert(r matches Some(p) ==> cs@.subrange(from as int, p.1 as int) == render_ident(
            p.0@,
        ) && wf_ident(p.0@));
        assert forall|id: IdentV, e: int|
            wf_ident(id) && from <= e <= to && cs@.subrange(from as int, e) == render_ident(id)
                && (e == to || !is_ident_char(cs@[e])) implies r matches Some(p) && p.0@ == id
            && p.1 == e by {
            assert(e == j as int);
            assert(render_ident(id) == run);
            match id {
                IdentV::Num(n) => {
                    lemma_dec_rep_digits(n as int);
                    assert(canonical_number(run));
                    assert(digits_val(run) == n);
                },
                IdentV::Alpha(s) => {
                    assert(s == run);
                    assert(!canonical_number(run));
                },
            }
        }
    }
    r
}

/// The characters an identifier renders to are identifier characters, and
/// there is at least one.
proof fn lemma_render_ident_chars(id: IdentV)
    requires
        wf_ident(id),
    ensures
        render_ident(id).len() > 0,
        forall|k: int|
            0 <= k < render_ident(id).len() ==> is_ident_char(#[trigger] render_ident(id)[k]),
{
    match id {
        IdentV::Num(n) => {
            lemma_dec_rep_digits(n as int);
        },
        IdentV::Alpha(_) => {},
    }
}

/// Unfolds a dot-joined rendering at the front.
proof fn lemma_render_idents_front(ids: Seq<IdentV>)
    requires
        ids.len() > 0,
    ensures
        ids.len() == 1 ==> render_idents(ids) == render_ident(ids[0]),
        ids.len() > 1 ==> render_idents(ids) == render_ident(ids[0]) + seq!['.']
            + render_idents(ids.subrange(1, ids.len() as int)),
    decreases ids.len(),
{
    if ids.len() > 1 {
        let dl = ids.drop_last();
        let df = ids.subrange(1, ids.len() as int);
        lemma_render_idents_front(dl);
        assert(dl[0] == ids[0]);
        if ids.len() == 2 {
            assert(df =~= seq![ids[1]]);
            assert(render_idents(df) == render_ident(ids[1]));
            assert(render_idents(ids) == render_idents(dl) + seq!['.'] + render_ident(
                ids.last(),
            ));
            assert(render_idents(dl) == render_ident(ids[0]));
            assert(render_ident(ids[0]) + seq!['.'] + render_idents(df) =~= render_idents(ids));
        } else {
            assert(dl.len() > 1);
            assert(dl.subrange(1, dl.len() as int) =~= df.drop_last());
            assert(df.len() > 1);
            assert(df[0] == ids[1]);
            assert(df.last() == ids.last());
            assert(render_idents(ids) == render_idents(dl) + seq!['.'] + render_ident(
                ids.last(),
            ));
            assert(render_idents(df) == render_idents(df.drop_last()) + seq!['.']
                + render_ident(df.last()));
            assert(render_idents(dl) == render_ident(ids[0]) + seq!['.'] + render_idents(
                df.drop_last(),
            ));
            assert(render_ident(ids[0]) + seq!['.'] + render_idents(df) =~= render_idents(ids));
        }
    }
}

/// Parses the dot-joined identifier list at `from`, stopping at the first
/// character that can follow one (neither a dot nor an identifier
/// character).
#[verifier::rlimit(100)]
#[verifier::spinoff_prover]
fn parse_idents_at(cs: &Vec<char>, from: usize, to: usize) -> (r: Option<(Vec<Identifier>, usize)>)
    requires
        from <= to <= cs@.len(),
    ensures
        r matches Some(p) ==> {
            &&& from < p.1 <= to
            &&& p.0@.len() > 0
            &&& cs@.subrange(from as int, p.1 as int) == render_idents(idents_view(p.0@))
            &&& wf_idents(idents_view(p.0@))
            &&& (p.1 == to || (cs@[p.1 as int] != '.' && !is_ident_char(cs@[p.1 as int])))
        },
        forall|ids: Seq<IdentV>, e: int|
            #![trigger render_idents(ids), cs@.subrange(from as int, e)]
            ids.len() > 0 && wf_idents(ids) && from <= e <= to && cs@.subrange(from as int, e)
                == render_idents(ids) && (e == to || (cs@[e] != '.' && !is_ident_char(
                cs@[e],
            ))) ==> (r matches Some(p) && idents_view(p.0@) == ids && p.1 == e),
    decreases to - from,
{
    let first: Option<(Identifier, usize)> = parse_ident_at(cs, from, to);
    proof {
        // Any rendered identifier list here starts with its first
        // identifier, ending at a dot or at the list's own boundary; the
        // single-identifier parse therefore recovers exactly that head.
        assert forall|ids: Seq<IdentV>, e: int|
            #![trigger render_idents(ids), cs@.subrange(from as int, e)]
            ids.len() > 0 && wf_idents(ids) && from <= e <= to && cs@.subrange(from as int, e)
                == render_idents(ids) && (e == to || (cs@[e] != '.' && !is_ident_char(
                cs@[e],
            ))) implies witness_head(cs@, from as int, to as int, ids, e) && (
        first matches Some(q) && q.0@ == ids[0] && q.1 == from + render_ident(
            ids[0],
        ).len()) by {
            lemma_render_idents_front(ids);
            lemma_render_ident_chars(ids[0]);
            let h = render_ident(ids[0]);
            let e0 = from + h.len();
            assert(cs@.subrange(from as int, e).len() == e - from);
            assert(render_idents(ids).len() == e - from);
            if ids.len() == 1 {
                assert(cs@.subrange(from as int, e0) =~= h);
            } else {
                let t = ids.subrange(1, ids.len() as int);
                assert(render_idents(ids) == h + seq!['.'] + render_idents(t));
                assert(render_idents(ids).len() == h.len() + 1 + render_idents(t).len());
                assert(e0 < e);
                assert(forall|k: int|
                    from <= k < e ==> #[trigger] cs@[k] == render_idents(ids)[k - from]);
                assert(cs@.subrange(from as int, e0) =~= h);
                assert(cs@[e0] == '.');
            }
            assert(wf_ident(ids[0]));
            assert(e0 == to || !is_ident_char(cs@[e0]));
        }
    }
    match first {
        None => None,
        Some((id, e1)) => {
            if e1 < to && cs[e1] == '.' {
                match parse_idents_at(cs, e1 + 1, to) {
                    None => {
                        proof {
                            assert forall|ids: Seq<IdentV>, e: int|
                                #![trigger render_idents(ids), cs@.subrange(from as int, e)]
                                ids.len() > 0 && wf_idents(ids) && from <= e <= to
                                    && cs@.subrange(from as int, e) == render_idents(ids) && (e
                                    == to || (cs@[e] != '.' && !is_ident_char(
                                    cs@[e],
                                ))) implies false by {
                                assert(witness_head(cs@, from as int, to as int, ids, e));
                                let e0 = from + render_ident(ids[0]).len();
                                assert(e0 == e1);
                                assert(ids.len() > 1) by {
                                    if ids.len() == 1 {
                                        assert(e0 == e);
                                        assert(cs@[e1 as int] == '.');
                                    }
                                }
                                lemma_render_idents_front(ids);
                                let tail = ids.subrange(1, ids.len() as int);
                                let h = render_ident(ids[0]);
                                assert(render_idents(ids) == h + seq!['.'] + render_idents(
                                    tail,
                                ));
                                assert(cs@.subrange(from as int, e).len() == e - from);
                                assert(render_idents(ids).len() == e - from);
                                assert(h.len() == e1 - from);
                                assert(cs@.subrange(e1 + 1, e) =~= render_idents(tail)) by {
                                    assert(forall|k: int|
                                        from <= k < e ==> #[trigger] cs@[k] == render_idents(
                                            ids,
                                        )[k - from]);
                                }
                                assert(wf_idents(tail)) by {
                                    assert(forall|k: int|
                                        0 <= k < tail.len() ==> #[trigger] tail[k] == ids[k
                                            + 1]);
                                }
                                assert(tail.len() > 0);
                            }
                        }
                        None
                    },
                    Some((rest, e2)) => {
                        let ghost rv = idents_view(rest@);
                        let mut out: Vec<Identifier> = rest;
                        out.insert(0, id);
                        let ghost iv = idents_view(out@);
                        proof {
                            assert(out@.len() == rv.len() + 1);
                            assert(iv.len() == out@.len());
                            assert(iv[0] == out@[0]@ && out@[0] == id);
                            assert(iv.subrange(1, iv.len() as int) =~= rv) by {
                                assert(forall|k: int|
                                    0 <= k < rv.len() ==> #[trigger] out@[k + 1]@ == rv[k]);
                            }
                            assert(iv.len() > 1);
                            lemma_render_idents_front(iv);
                            assert(render_idents(iv) == render_ident(id@) + seq!['.']
                                + render_idents(rv));
                            assert(cs@.subrange(from as int, e2 as int) =~= cs@.subrange(
                                from as int,
                                e1 as int,
                            ) + seq![cs@[e1 as int]] + cs@.subrange(e1 + 1, e2 as int));
                            assert(cs@.subrange(from as int, e2 as int) == render_idents(iv));
                            assert(wf_idents(iv)) by {
                                assert(forall|k: int|
                                    1 <= k < iv.len() ==> #[trigger] iv[k] == rv[k - 1]);
                            }
                            assert forall|ids: Seq<IdentV>, e: int|
                                #![trigger render_idents(ids), cs@.subrange(from as int, e)]
                                ids.len() > 0 && wf_idents(ids) && from <= e <= to
                                    && cs@.subrange(from as int, e) == render_idents(ids) && (e
                                    == to || (cs@[e] != '.' && !is_ident_char(
                                    cs@[e],
                                ))) implies iv == ids && e2 as int == e by {
                                assert(witness_head(cs@, from as int, to as int, ids, e));
                                let e0 = from + render_ident(ids[0]).len();
                                assert(e0 == e1);
                                assert(ids.len() > 1) by {
                                    if ids.len() == 1 {
                                        assert(e0 == e);
                                        assert(cs@[e1 as int] == '.');
                                    }
                                }
                                lemma_render_idents_front(ids);
                                let tail = ids.subrange(1, ids.len() as int);
                                let h = render_ident(ids[0]);
                                assert(render_idents(ids) == h + seq!['.'] + render_idents(
                                    tail,
                                ));
                                assert(cs@.subrange(from as int, e).len() == e - from);
                                assert(render_idents(ids).len() == e - from);
                                assert(h.len() == e1 - from);
                                assert(cs@.subrange(e1 + 1, e) =~= render_idents(tail)) by {
                                    assert(forall|k: int|
                                        from <= k < e ==> #[trigger] cs@[k] == render_idents(
                                            ids,
                                        )[k - from]);
                                }
                                assert(wf_idents(tail)) by {
                                    assert(forall|k: int|
                                        0 <= k < tail.len() ==> #[trigger] tail[k] == ids[k
                                            + 1]);
                                }
                                assert(tail.len() > 0);
                                assert(rv == tail && e2 as int == e);
                                assert(id@ == ids[0]);
                                assert(iv.len() == ids.len());
                                assert forall|k: int| 0 <= k < ids.len() implies iv[k]
                                    == ids[k] by {
                                    if k > 0 {
                                        assert(iv.subrange(1, iv.len() as int)[k - 1]
                                            == iv[k]);
                                        assert(tail[k - 1] == ids[k]);
                                    }
                                }
                                assert(iv =~= ids);
                            }
                        }
                        Some((out, e2))
                    },
                }
            } else {
                // No dot follows: a one-identifier list.
                let out: Vec<Identifier> = vec_of_one(id);
                let ghost iv = idents_view(out@);
                proof {
                    assert(iv =~= seq![id@]);
                    assert(iv.len() == 1 && iv[0] == id@);
                    assert(render_idents(iv) == render_ident(id@));
                    assert(wf_idents(iv));
                    assert(e1 == to || cs@[e1 as int] != '.');
                    assert forall|ids: Seq<IdentV>, e: int|
                        #![trigger render_idents(ids), cs@.subrange(from as int, e)]
                        ids.len() > 0 && wf_idents(ids) && from <= e <= to && cs@.subrange(
                            from as int,
                            e,
                        ) == render_idents(ids) && (e == to || (cs@[e] != '.'
                            && !is_ident_char(cs@[e]))) implies iv == ids && e1 as int
                        == e by {
                        assert(witness_head(cs@, from as int, to as int, ids, e));
                        let e0 = from + render_ident(ids[0]).len();
                        assert(e0 == e1);
                        assert(ids.len() == 1) by {
                            if ids.len() > 1 {
                                assert(cs@[e0] == '.');
                            }
                        }
                        assert(e0 == e);
                        assert(id@ == ids[0]);
                        assert(iv =~= ids);
                    }
                }
                Some((out, e1))
            }
        },
    }
}

/// A single-identifier list.
fn vec_of_one(id: Identifier) -> (r: Vec<Identifier>)
    ensures
        r@.len() == 1,
        r@[0] == id,
{
    let mut r: Vec<Identifier> = Vec::new();
    r.push(id);
    r
}

/// Structure of a rendered identifier list at `from`: its first identifier
/// sits at the front, delimited by a dot exactly when more follow.
spec fn witness_head(s: Seq<char>, from: int, to: int, ids: Seq<IdentV>, e: int) -> bool {
    let h = render_ident(ids[0]);
    let e0 = from + h.len();
    &&& from < e0 <= e <= to
    &&& s.subrange(from, e0) == h
    &&& (ids.len() == 1 ==> e0 == e)
    &&& (ids.len() > 1 ==> e0 < e && s[e0] == '.')
    &&& (e0 == to || !is_ident_char(s[e0]))
}


/// Structure of a rendered version: where each part sits and what delimits
/// it.
#[verifier::rlimit(100)]
#[verifier::spinoff_prover]
proof fn lemma_version_witness(s: Seq<char>, from: int, to: int, vv: VersionV)
    requires
        0 <= from <= to <= s.len(),
        wf_version(vv),
        s.subrange(from, to) == render_version(vv),
    ensures
        ({
            let pfx: int = if vv.v {
                1
            } else {
                0
            };
            let dmaj = dec_rep(vv.core.major as int);
            let dmin = dec_rep(vv.core.minor as int);
            let dpat = dec_rep(vv.core.patch as int);
            let q1 = from + pfx + dmaj.len();
            let q2 = q1 + 1 + dmin.len();
            let q3 = q2 + 1 + dpat.len();
            let q4 = q3 + (if vv.core.pre.len() > 0 {
                1 + render_idents(vv.core.pre).len() as int
            } else {
                0int
            });
            let q5 = q4 + (if vv.core.build.len() > 0 {
                1 + render_idents(vv.core.build).len() as int
            } else {
                0int
            });
            &&& q5 == to
            &&& from < to
            &&& (vv.v ==> s[from] == 'v')
            &&& (!vv.v ==> s[from] != 'v')
            &&& s.subrange(from + pfx, q1) == dmaj
            &&& q1 < to && s[q1] == '.'
            &&& s.subrange(q1 + 1, q2) == dmin
            &&& q2 < to && s[q2] == '.'
            &&& s.subrange(q2 + 1, q3) == dpat
            &&& s.subrange(from + pfx, q3) == triple_rep(
                vv.core.major as int,
                vv.core.minor as int,
                vv.core.patch as int,
            )
            &&& (q3 == to || !is_digit(s[q3]))
            &&& (vv.core.pre.len() > 0 ==> q3 < to && s[q3] == '-' && s.subrange(q3 + 1, q4)
                == render_idents(vv.core.pre) && (q4 == to || (s[q4] != '.' && !is_ident_char(
                s[q4],
            ))))
            &&& (vv.core.pre.len() == 0 ==> q4 == q3 && (q3 == to || s[q3] != '-'))
            &&& (vv.core.build.len() > 0 ==> q4 < to && s[q4] == '+' && s.subrange(q4 + 1, q5)
                == render_idents(vv.core.build))
            &&& (vv.core.build.len() == 0 ==> q5 == q4)
        }),
{
    let pfx: int = if vv.v {
        1
    } else {
        0
    };
    let vpart: Seq<char> = if vv.v {
        seq!['v']
    } else {
        Seq::empty()
    };
    let dmaj = dec_rep(vv.core.major as int);
    let dmin = dec_rep(vv.core.minor as int);
    let dpat = dec_rep(vv.core.patch as int);
    lemma_dec_rep_digits(vv.core.major as int);
    lemma_dec_rep_digits(vv.core.minor as int);
    lemma_dec_rep_digits(vv.core.patch as int);
    let preblk: Seq<char> = if vv.core.pre.len() > 0 {
        seq!['-'] + render_idents(vv.core.pre)
    } else {
        Seq::empty()
    };
    let buildblk: Seq<char> = if vv.core.build.len() > 0 {
        seq!['+'] + render_idents(vv.core.build)
    } else {
        Seq::empty()
    };
    let full = render_version(vv);
    assert(full =~= vpart + dmaj + seq!['.'] + dmin + seq!['.'] + dpat + preblk + buildblk);
    let q1 = from + pfx + dmaj.len();
    let q2 = q1 + 1 + dmin.len();
    let q3 = q2 + 1 + dpat.len();
    let q4 = q3 + preblk.len();
    let q5 = q4 + buildblk.len();
    assert(full.len() == pfx + dmaj.len() + 1 + dmin.len() + 1 + dpat.len() + preblk.len()
        + buildblk.len());
    assert(s.subrange(from, to).len() == to - from);
    assert(q5 == to);
    assert(forall|k: int| from <= k < to ==> #[trigger] s[k] == full[k - from]);
    if vv.v {
        assert(s[from] == full[0]);
        assert(full[0] == 'v');
    } else {
        assert(s[from] == full[0]);
        assert(full[0] == dmaj[0]);
        assert(is_digit(dmaj[0]));
        assert(s[from] != 'v') by {
            if s[from] == 'v' {
                assert(is_digit('v'));
            }
        }
    }
    assert(s.subrange(from + pfx, q1) =~= dmaj);
    assert(s[q1] == full[q1 - from] && full[q1 - from] == '.');
    assert(s.subrange(q1 + 1, q2) =~= dmin);
    assert(s[q2] == full[q2 - from] && full[q2 - from] == '.');
    assert(s.subrange(q2 + 1, q3) =~= dpat);
    assert(s.subrange(from + pfx, q3) =~= triple_rep(
        vv.core.major as int,
        vv.core.minor as int,
        vv.core.patch as int,
    ));
    if vv.core.pre.len() > 0 {
        assert(s[q3] == full[q3 - from] && full[q3 - from] == '-');
        assert(!is_digit('-'));
        assert(s.subrange(q3 + 1, q4) =~= render_idents(vv.core.pre));
        if vv.core.build.len() > 0 {
            assert(s[q4] == full[q4 - from] && full[q4 - from] == '+');
            assert(s[q4] != '.' && !is_ident_char(s[q4]));
        }
    } else {
        if vv.core.build.len() > 0 {
            assert(s[q3] == full[q3 - from] && full[q3 - from] == '+');
            assert(s[q3] != '-' && !is_digit('+'));
        }
    }
    if vv.core.build.len() > 0 {
        assert(s.subrange(q4 + 1, q5) =~= render_idents(vv.core.build));
    }
}

/// The text of a `major.minor.patch` triple.
pub open spec fn triple_rep(a: int, b: int, c: int) -> Seq<char> {
    dec_rep(a) + seq!['.'] + dec_rep(b) + seq!['.'] + dec_rep(c)
}

/// Parses a canonical `major.minor.patch` triple at `from`.
#[verifier::rlimit(100)]
#[verifier::spinoff_prover]
fn parse_num_triple(cs: &Vec<char>, from: usize, to: usize) -> (r: Option<(u64, u64, u64, usize)>)
    requires
        from <= to <= cs@.len(),
    ensures
        r matches Some(p) ==> {
            &&& from < p.3 <= to
            &&& cs@.subrange(from as int, p.3 as int) == triple_rep(
                p.0 as int,
                p.1 as int,
                p.2 as int,
            )
            &&& (p.3 == to || !is_digit(cs@[p.3 as int]))
        },
        forall|a: u64, b: u64, c: u64, e: int|
            #![trigger triple_rep(a as int, b as int, c as int), cs@.subrange(from as int, e)]
            from <= e <= to && cs@.subrange(from as int, e) == triple_rep(
                a as int,
                b as int,
                c as int,
            ) && (e == to || !is_digit(cs@[e])) ==> r == Some((a, b, c, e as usize)),
{
    proof {
        // Where each part of a rendered triple sits.
        assert forall|a: u64, b: u64, c: u64, e: int|
            #![trigger triple_rep(a as int, b as int, c as int), cs@.subrange(from as int, e)]
            from <= e <= to && cs@.subrange(from as int, e) == triple_rep(
                a as int,
                b as int,
                c as int,
            ) && (e == to || !is_digit(cs@[e])) implies ({
            let da = dec_rep(a as int);
            let db = dec_rep(b as int);
            let dc = dec_rep(c as int);
            let t1 = from + da.len();
            let t2 = t1 + 1 + db.len();
            &&& e == t2 + 1 + dc.len()
            &&& cs@.subrange(from as int, t1 as int) == da
            &&& t1 < e && cs@[t1 as int] == '.'
            &&& cs@.subrange(t1 + 1, t2 as int) == db
            &&& t2 < e && cs@[t2 as int] == '.'
            &&& cs@.subrange(t2 + 1, e) == dc
        }) by {
            let da = dec_rep(a as int);
            let db = dec_rep(b as int);
            let dc = dec_rep(c as int);
            lemma_dec_rep_digits(a as int);
            lemma_dec_rep_digits(b as int);
            lemma_dec_rep_digits(c as int);
            let t1 = from + da.len();
            let t2 = t1 + 1 + db.len();
            let full = triple_rep(a as int, b as int, c as int);
            assert(cs@.subrange(from as int, e).len() == e - from);
            assert(full.len() == da.len() + 1 + db.len() + 1 + dc.len());
            assert(forall|k: int|
                from <= k < e ==> #[trigger] cs@[k] == full[k - from]);
            assert(cs@.subrange(from as int, t1 as int) =~= da);
            assert(cs@[t1 as int] == full[t1 - from] && full[t1 - from] == '.');
            assert(cs@.subrange(t1 + 1, t2 as int) =~= db);
            assert(cs@[t2 as int] == full[t2 - from] && full[t2 - from] == '.');
            assert(cs@.subrange(t2 + 1, e) =~= dc);
        }
    }
    let (a, p1): (u64, usize) = match parse_dec_run(cs, from, to) {
        Some(p) => p,
        None => {
            return None;
        },
    };
    if !(p1 < to && cs[p1] == '.') {
        return None;
    }
    let (b, p2): (u64, usize) = match parse_dec_run(cs, p1 + 1, to) {
        Some(p) => p,
        None => {
            return None;
        },
    };
    if !(p2 < to && cs[p2] == '.') {
        return None;
    }
    let (c, p3): (u64, usize) = match parse_dec_run(cs, p2 + 1, to) {
        Some(p) => p,
        None => {
            return None;
        },
    };
    proof {
        assert(cs@.subrange(from as int, p3 as int) =~= dec_rep(a as int) + seq!['.'] + dec_rep(
            b as int,
        ) + seq!['.'] + dec_rep(c as int));
    }
    Some((a, b, c, p3))
}

/// Parses the characters of `[from, to)` as exactly one canonical version
/// text; the canonical texts are accepted, and nothing else.
#[verifier::rlimit(100)]
#[verifier::spinoff_prover]
pub fn parse_version_exact(cs: &Vec<char>, from: usize, to: usize) -> (r: Option<Version>)
    requires
        from <= to <= cs@.len(),
    ensures
        r matches Some(v) ==> cs@.subrange(from as int, to as int) == render_version(v@)
            && wf_version(v@),
        forall|vv: VersionV|
            wf_version(vv) && cs@.subrange(from as int, to as int) == render_version(vv)
                ==> r is Some,
{
    let has_v: bool = from < to && cs[from] == 'v';
    let s0: usize = if has_v {
        from + 1
    } else {
        from
    };
    proof {
        // For any version this text renders, the triple parse recovers the
        // three numbers and ends exactly where the numeric part does.
        assert forall|vv: VersionV|
            wf_version(vv) && cs@.subrange(from as int, to as int) == render_version(
                vv,
            ) implies witness_tail(cs@, from as int, to as int, s0 as int, vv) by {
            lemma_version_witness(cs@, from as int, to as int, vv);
            assert(s0 as int == from + (if vv.v {
                1int
            } else {
                0
            }));
        }
    }
    let (maj, min, pat, p3): (u64, u64, u64, usize) = match parse_num_triple(cs, s0, to) {
        Some(p) => p,
        None => {
            return None;
        },
    };
    let mut pre_vec: Vec<Identifier> = Vec::new();
    let mut pos: usize = p3;
    if pos < to && cs[pos] == '-' {
        match parse_idents_at(cs, pos + 1, to) {
            None => {
                return None;
            },
            Some((ids, e)) => {
                pre_vec = ids;
                pos = e;
            },
        }
    }
    let ghost pre_end = pos as int;
    let mut build_vec: Vec<Identifier> = Vec::new();
    if pos < to && cs[pos] == '+' {
        match parse_idents_at(cs, pos + 1, to) {
            None => {
                return None;
            },
            Some((ids, e)) => {
                build_vec = ids;
                pos = e;
            },
        }
    }
    if pos != to {
        return None;
    }
    let v = Version {
        inner: VersionCore { major: maj, minor: min, patch: pat, pre: pre_vec, build: build_vec },
        v: has_v,
    };
    proof {
        let vw = v@;
        let w = cs@.subrange(from as int, to as int);
        assert(vw.core.pre == idents_view(v.inner.pre@));
        assert(vw.core.build == idents_view(v.inner.build@));
        let vpart: Seq<char> = if has_v {
            seq!['v']
        } else {
            Seq::empty()
        };
        let preblk: Seq<char> = if vw.core.pre.len() > 0 {
            seq!['-'] + render_idents(vw.core.pre)
        } else {
            Seq::empty()
        };
        let buildblk: Seq<char> = if vw.core.build.len() > 0 {
            seq!['+'] + render_idents(vw.core.build)
        } else {
            Seq::empty()
        };
        assert(cs@.subrange(from as int, s0 as int) =~= vpart);
        assert(cs@.subrange(s0 as int, p3 as int) == triple_rep(
            maj as int,
            min as int,
            pat as int,
        ));
        assert(cs@.subrange(p3 as int, pre_end) =~= preblk);
        assert(cs@.subrange(pre_end, to as int) =~= buildblk);
        assert(w =~= cs@.subrange(from as int, s0 as int) + cs@.subrange(
            s0 as int,
            p3 as int,
        ) + cs@.subrange(p3 as int, pre_end) + cs@.subrange(pre_end, to as int));
        assert(render_version(vw) =~= vpart + triple_rep(maj as int, min as int, pat as int)
            + preblk + buildblk);
        assert(w == render_version(vw));
    }
    Some(v)
}

/// What the witness structure means for the parse after the numeric triple:
/// the triple sits at `s0`, and the pre-release and build lists (when
/// present) follow behind their markers, each with its delimiting boundary.
spec fn witness_tail(s: Seq<char>, from: int, to: int, s0: int, vv: VersionV) -> bool {
    let q3 = s0 + triple_rep(vv.core.major as int, vv.core.minor as int, vv.core.patch as int).len();
    let q4 = q3 + (if vv.core.pre.len() > 0 {
        1 + render_idents(vv.core.pre).len() as int
    } else {
        0int
    });
    let q5 = q4 + (if vv.core.build.len() > 0 {
        1 + render_idents(vv.core.build).len() as int
    } else {
        0int
    });
    &&& (vv.v ==> s[from] == 'v')
    &&& (!vv.v ==> s[from] != 'v')
    &&& s0 == from + (if vv.v {
        1int
    } else {
        0
    })
    &&& s0 <= q3 <= q4 <= q5 == to
    &&& s.subrange(s0, q3) == triple_rep(vv.core.major as int, vv.core.minor as int, vv.core.patch as int)
    &&& (q3 == to || !is_digit(s[q3]))
    &&& (vv.core.pre.len() > 0 ==> q3 < to && s[q3] == '-' && s.subrange(q3 + 1, q4)
        == render_idents(vv.core.pre) && (q4 == to || (s[q4] != '.' && !is_ident_char(s[q4]))))
    &&& (vv.core.pre.len() == 0 ==> q4 == q3 && (q3 == to || s[q3] != '-'))
    &&& (vv.core.build.len() > 0 ==> q4 < to && s[q4] == '+' && s.subrange(q4 + 1, q5)
        == render_idents(vv.core.build))
    &&& (vv.core.build.len() == 0 ==> q5 == q4)
}

} // verus!
