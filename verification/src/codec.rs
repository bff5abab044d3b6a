use vstd::prelude::*;
use crate::text::{is_digit, string_to_chars, chars_to_string};
use crate::render::{render_version, push_str_chars};
use crate::registries::{RegistryId, registry_id_name, registry_raw_url, RegistryInfo};
use crate::module::{Module, ModuleV, Snapshot, SnapV, opt_view, modules_view};
use crate::version::wf_version;

verus! {

// ---------------------------------------------------------------------------
// The shard-file line format: one snapshot per line, as a JSON object with
// the fields `name`, `desc`, `repo`, `reg` and `vers`, in that order and
// without spaces.  Strings escape `"`, `\` and control characters (the
// latter as `\u00XX` with lower-case hex); everything else is written as
// itself.  The version is its canonical rendering.
// ---------------------------------------------------------------------------

pub open spec fn hex_digit(d: int) -> char {
    if d < 10 {
        crate::text::digit_char(d)
    } else if d == 10 {
        'a'
    } else if d == 11 {
        'b'
    } else if d == 12 {
        'c'
    } else if d == 13 {
        'd'
    } else if d == 14 {
        'e'
    } else {
        'f'
    }
}

/// The escape of one character.
pub open spec fn esc_char(c: char) -> Seq<char> {
    if c == '"' {
        seq!['\\', '"']
    } else if c == '\\' {
        seq!['\\', '\\']
    } else if (c as u32) < 0x20 {
        seq!['\\', 'u', '0', '0', hex_digit((c as u32) as int / 16), hex_digit(
            (c as u32) as int % 16,
        )]
    } else {
        seq![c]
    }
}

/// The escaped body of a JSON string.
pub open spec fn esc(s: Seq<char>) -> Seq<char>
    decreases s.len(),
{
    if s.len() == 0 {
        Seq::empty()
    } else {
        esc(s.drop_last()) + esc_char(s.last())
    }
}

/// A JSON string literal.
pub open spec fn json_str(s: Seq<char>) -> Seq<char> {
    seq!['"'] + esc(s) + seq!['"']
}

/// An optional string: `null` or a JSON string.
pub open spec fn json_opt(o: Option<Seq<char>>) -> Seq<char> {
    match o {
        None => seq!['n', 'u', 'l', 'l'],
        Some(s) => json_str(s),
    }
}

/// The one-line JSON form of a snapshot.
pub open spec fn snapshot_line(s: SnapV) -> Seq<char> {
    "{\"name\":"@ + json_str(s.name) + ",\"desc\":"@ + json_opt(s.desc) + ",\"repo\":"@
        + json_opt(s.repo) + ",\"reg\":"@ + json_str(registry_id_name(s.reg)) + ",\"vers\":"@
        + json_str(render_version(s.vers)) + "}"@
}

/// A well-formed snapshot: its version came out of the version grammar.
pub open spec fn wf_snapshot(s: SnapV) -> bool {
    wf_version(s.vers)
}

// ---------------------------------------------------------------------------
// Rendering.
// ---------------------------------------------------------------------------

fn hex_digit_exec(d: u32) -> (c: char)
    requires
        d <= 15,
    ensures
        c == hex_digit(d as int),
{
    if d < 10 {
        crate::text::digit_to_char(d as u64)
    } else if d == 10 {
        'a'
    } else if d == 11 {
        'b'
    } else if d == 12 {
        'c'
    } else if d == 13 {
        'd'
    } else if d == 14 {
        'e'
    } else {
        'f'
    }
}

/// Appends the escaped body of `s`.
fn push_escaped(s: &str, out: &mut Vec<char>)
    ensures
        final(out)@ == old(out)@ + esc(s@),
{
    let cs: Vec<char> = string_to_chars(s);
    let n: usize = cs.len();
    let mut i: usize = 0;
    proof {
        assert(cs@.subrange(0, 0) =~= Seq::<char>::empty());
        assert(out@ =~= old(out)@ + esc(cs@.subrange(0, 0)));
    }
    while i < n
        invariant
            n == cs@.len(),
            cs@ == s@,
            i <= n,
            out@ == old(out)@ + esc(cs@.subrange(0, i as int)),
        decreases n - i,
    {
        let c: char = cs[i];
        let ghost pre = cs@.subrange(0, i as int);
        let ghost cur = cs@.subrange(0, i + 1);
        proof {
            assert(cur.drop_last() =~= pre);
            assert(cur.last() == c);
        }
        if c == '"' {
            out.push('\\');
            out.push('"');
        } else if c == '\\' {
            out.push('\\');
            out.push('\\');
        } else if (c as u32) < 0x20 {
            out.push('\\');
            out.push('u');
            out.push('0');
            out.push('0');
            out.push(hex_digit_exec((c as u32) / 16));
            out.push(hex_digit_exec((c as u32) % 16));
        } else {
            out.push(c);
        }
        i = i + 1;
        proof {
            assert(out@ =~= old(out)@ + esc(cur));
        }
    }
    proof {
        assert(cs@.subrange(0, n as int) =~= cs@);
    }
}

/// Appends a JSON string literal.
fn push_json_str(s: &str, out: &mut Vec<char>)
    ensures
        final(out)@ == old(out)@ + json_str(s@),
{
    out.push('"');
    push_escaped(s, out);
    out.push('"');
    proof {
        assert(out@ =~= old(out)@ + json_str(s@));
    }
}

/// Appends `null` or a JSON string literal.
fn push_json_opt(o: &Option<String>, out: &mut Vec<char>)
    ensures
        final(out)@ == old(out)@ + json_opt(opt_view(*o)),
{
    match o {
        None => {
            push_str_chars("null", out);
            proof {
                reveal_strlit("null");
                assert("null"@ =~= seq!['n', 'u', 'l', 'l']);
            }
        },
        Some(s) => {
            push_json_str(s.as_str(), out);
        },
    }
}

/// Renders a snapshot as its shard-file line (without the newline).
pub fn render_snapshot_line(s: &Snapshot) -> (r: String)
    ensures
        r@ == snapshot_line(s@),
{
    let mut out: Vec<char> = Vec::new();
    push_str_chars("{\"name\":", &mut out);
    push_json_str(s.name.as_str(), &mut out);
    push_str_chars(",\"desc\":", &mut out);
    push_json_opt(&s.desc, &mut out);
    push_str_chars(",\"repo\":", &mut out);
    push_json_opt(&s.repo, &mut out);
    push_str_chars(",\"reg\":", &mut out);
    let reg_name: String = s.reg.name();
    push_json_str(reg_name.as_str(), &mut out);
    push_str_chars(",\"vers\":", &mut out);
    let vers_text: String = s.vers.display();
    push_json_str(vers_text.as_str(), &mut out);
    push_str_chars("}", &mut out);
    proof {
        assert(out@ =~= snapshot_line(s@));
    }
    chars_to_string(&out)
}

// ---------------------------------------------------------------------------
// Parsing a shard-file line: the exact inverse of the rendering above.
// Every reader here carries both directions — what a success consumed, and
// that scanning cannot fail on a canonical text — so a line is accepted if
// and only if it is the canonical form of exactly one snapshot; any other
// line counts as store corruption.
// ---------------------------------------------------------------------------

/// Unfolds an escaped body at the front.
proof fn lemma_esc_front(u: Seq<char>)
    requires
        u.len() > 0,
    ensures
        esc(u) == esc_char(u[0]) + esc(u.subrange(1, u.len() as int)),
    decreases u.len(),
{
    if u.len() == 1 {
        assert(u.drop_last() =~= Seq::<char>::empty());
        assert(u.subrange(1, 1) =~= Seq::<char>::empty());
        assert(esc(u) =~= esc_char(u[0]) + esc(u.subrange(1, 1)));
    } else {
        let t = u.subrange(1, u.len() as int);
        lemma_esc_front(u.drop_last());
        assert(u.drop_last()[0] == u[0]);
        assert(u.drop_last().subrange(1, u.len() - 1) =~= t.drop_last());
        assert(t.last() == u.last());
        assert(esc(u) == esc(u.drop_last()) + esc_char(u.last()));
        assert(esc(t) == esc(t.drop_last()) + esc_char(t.last()));
        assert(esc_char(u[0]) + esc(t) =~= esc(u));
    }
}

pub open spec fn hex_val_spec(c: char) -> Option<u32> {
    if is_digit(c) {
        Some((((c as u32) - ('0' as u32)) as u32))
    } else if ('a' as u32) <= (c as u32) && (c as u32) <= ('f' as u32) {
        Some((((c as u32) - ('a' as u32) + 10) as u32))
    } else if ('A' as u32) <= (c as u32) && (c as u32) <= ('F' as u32) {
        Some((((c as u32) - ('A' as u32) + 10) as u32))
    } else {
        None
    }
}

/// The value of one hexadecimal digit character.
fn hex_val(c: char) -> (r: Option<u32>)
    ensures
        r == hex_val_spec(c),
        r matches Some(v) ==> v <= 15,
{
    proof {
        vstd::utf8::char_is_scalar(c);
    }
    let v: u32 = c as u32;
    if is_digit_exec(c) {
        Some(v - ('0' as u32))
    } else if v >= ('a' as u32) && v <= ('f' as u32) {
        Some(v - ('a' as u32) + 10)
    } else if v >= ('A' as u32) && v <= ('F' as u32) {
        Some(v - ('A' as u32) + 10)
    } else {
        None
    }
}

/// A canonical lower-case hexadecimal digit reads back as its value.
proof fn lemma_hex_digit_val(k: int)
    requires
        0 <= k <= 15,
    ensures
        hex_val_spec(hex_digit(k)) == Some((k as u32)),
{
    vstd::utf8::char_u32_cast(hex_digit(k), hex_digit(k) as u32);
}

fn is_digit_exec(c: char) -> (r: bool)
    ensures
        r == is_digit(c),
{
    (c as u32) >= ('0' as u32) && (c as u32) <= ('9' as u32)
}

/// Relies on `char::from_u32` of std: `Some` exactly for Unicode scalar
/// values — every value below the surrogate range included — returning the
/// character with that value.
#[verifier::external_body]
fn char_from_u32(v: u32) -> (r: Option<char>)
    ensures
        r matches Some(c) ==> c as u32 == v,
        v < 0xD800 ==> r is Some,
{
    char::from_u32(v)
}

/// Structure of an escaped body with its closing quote: the first escape
/// sits at the front, and the rest follows it.
proof fn lemma_body_witness(s: Seq<char>, i: int, u: Seq<char>, e: int)
    requires
        0 <= i <= e <= s.len(),
        s.subrange(i, e) == esc(u) + seq!['"'],
    ensures
        i < e,
        u.len() == 0 ==> e == i + 1 && s[i] == '"',
        u.len() > 0 ==> ({
            let ec = esc_char(u[0]);
            let t = u.subrange(1, u.len() as int);
            &&& e == i + ec.len() + esc(t).len() + 1
            &&& i + ec.len() <= e
            &&& (forall|x: int| 0 <= x < ec.len() ==> #[trigger] ec[x] == s[i + x])
            &&& s[i] == ec[0]
            &&& s.subrange(i + ec.len(), e) == esc(t) + seq!['"']
        }),
{
    assert(s.subrange(i, e).len() == e - i);
    if u.len() == 0 {
        assert(esc(u) =~= Seq::<char>::empty());
        assert((esc(u) + seq!['"']).len() == 1);
        assert(s[i] == (esc(u) + seq!['"'])[0]);
    } else {
        lemma_esc_front(u);
        let ec = esc_char(u[0]);
        let t = u.subrange(1, u.len() as int);
        assert(esc(u) + seq!['"'] =~= ec + (esc(t) + seq!['"']));
        assert(forall|x: int| i <= x < e ==> #[trigger] s[x] == (ec + (esc(t) + seq!['"']))[x - i]);
        assert(forall|x: int| 0 <= x < ec.len() ==> #[trigger] ec[x] == s[i + x]);
        assert(s.subrange(i + ec.len(), e) =~= esc(t) + seq!['"']);
        assert(s[i] == ec[0]);
    }
}

/// Scans an escaped string body up to and including its closing quote.
#[verifier::rlimit(100)]
#[verifier::spinoff_prover]
fn scan_str_body(cs: &Vec<char>, i: usize) -> (r: Option<(Vec<char>, usize)>)
    requires
        i <= cs@.len(),
    ensures
        r matches Some(p) ==> i < p.1 <= cs@.len() && cs@.subrange(i as int, p.1 as int) == esc(
            p.0@,
        ) + seq!['"'],
        forall|u: Seq<char>, e: int|
            #![trigger esc(u), cs@.subrange(i as int, e)]
            i <= e <= cs@.len() && cs@.subrange(i as int, e) == esc(u) + seq!['"'] ==> (
            r matches Some(p) && p.0@ == u && p.1 == e),
    decreases cs@.len() - i,
{
    let n: usize = cs.len();
    if i >= n {
        proof {
            assert forall|u: Seq<char>, e: int|
                #![trigger esc(u), cs@.subrange(i as int, e)]
                i <= e <= cs@.len() && cs@.subrange(i as int, e) == esc(u) + seq!['"'] implies
                false by {
                lemma_body_witness(cs@, i as int, u, e);
            }
        }
        return None;
    }
    let c: char = cs[i];
    if c == '"' {
        let out: Vec<char> = Vec::new();
        proof {
            assert(cs@.subrange(i as int, i + 1) =~= seq!['"']);
            assert(esc(out@) =~= Seq::<char>::empty());
            assert(cs@.subrange(i as int, i + 1) =~= esc(out@) + seq!['"']);
            assert forall|u: Seq<char>, e: int|
                #![trigger esc(u), cs@.subrange(i as int, e)]
                i <= e <= cs@.len() && cs@.subrange(i as int, e) == esc(u) + seq!['"'] implies u
                =~= out@ && e == i + 1 by {
                lemma_body_witness(cs@, i as int, u, e);
                if u.len() > 0 {
                    assert(esc_char(u[0])[0] != '"');
                }
            }
        }
        return Some((out, i + 1));
    }
    if c == '\\' {
        if i + 1 >= n {
            proof {
                assert forall|u: Seq<char>, e: int|
                    #![trigger esc(u), cs@.subrange(i as int, e)]
                    i <= e <= cs@.len() && cs@.subrange(i as int, e) == esc(u) + seq!['"']
                    implies false by {
                    lemma_body_witness(cs@, i as int, u, e);
                    assert(u.len() > 0);
                    assert(esc_char(u[0]).len() >= 2) by {
                        assert(esc_char(u[0])[0] == cs@[i as int]);
                    }
                }
            }
            return None;
        }
        let d: char = cs[i + 1];
        let ch: char;
        let k: usize;
        if d == '"' {
            ch = '"';
            k = 2;
        } else if d == '\\' {
            ch = '\\';
            k = 2;
        } else if d == 'u' {
            if n - i <= 5 {
                proof {
                    assert forall|u: Seq<char>, e: int|
                        #![trigger esc(u), cs@.subrange(i as int, e)]
                        i <= e <= cs@.len() && cs@.subrange(i as int, e) == esc(u) + seq!['"']
                        implies false by {
                        lemma_body_witness(cs@, i as int, u, e);
                        assert(u.len() > 0);
                        assert(esc_char(u[0])[0] == cs@[i as int]);
                        assert(esc_char(u[0])[1] == cs@[i + 1]);
                        assert(esc_char(u[0]).len() == 6);
                    }
                }
                return None;
            }
            let ok0: bool = cs[i + 2] == '0' && cs[i + 3] == '0';
            let h1: Option<u32> = hex_val(cs[i + 4]);
            let h2: Option<u32> = hex_val(cs[i + 5]);
            let mut good: bool = false;
            let mut w: u32 = 0;
            if ok0 {
                match (h1, h2) {
                    (Some(a), Some(b)) => {
                        let ww: u32 = a * 16 + b;
                        if ww < 0x20 && cs[i + 4] == hex_digit_exec(a) && cs[i + 5]
                            == hex_digit_exec(b) {
                            good = true;
                            w = ww;
                        }
                    },
                    _ => {},
                }
            }
            if !good {
                // A non-canonical escape: no canonical text reaches here.
                proof {
                    assert forall|u: Seq<char>, e: int|
                        #![trigger esc(u), cs@.subrange(i as int, e)]
                        i <= e <= cs@.len() && cs@.subrange(i as int, e) == esc(u) + seq!['"']
                        implies false by {
                        lemma_body_witness(cs@, i as int, u, e);
                        assert(u.len() > 0);
                        let u0 = u[0];
                        assert(esc_char(u0)[0] == cs@[i as int]);
                        vstd::utf8::char_u32_cast(u0, u0 as u32);
                        assert((u0 as u32) < 0x20) by {
                            if u0 == '"' || u0 == '\\' {
                                assert(esc_char(u0)[1] == cs@[i + 1]);
                            }
                        }
                        let a0 = (u0 as u32) as int / 16;
                        let b0 = (u0 as u32) as int % 16;
                        lemma_hex_digit_val(a0);
                        lemma_hex_digit_val(b0);
                        assert(esc_char(u0)[2] == cs@[i + 2] && esc_char(u0)[3] == cs@[i + 3]);
                        assert(esc_char(u0)[4] == cs@[i + 4] && esc_char(u0)[5] == cs@[i + 5]);
                        assert(cs@[i + 2] == '0' && cs@[i + 3] == '0');
                        assert(cs@[i + 4] == hex_digit(a0) && cs@[i + 5] == hex_digit(b0));
                        assert(a0 * 16 + b0 == (u0 as u32)) by (nonlinear_arith)
                            requires
                                a0 == (u0 as u32) as int / 16,
                                b0 == (u0 as u32) as int % 16,
                                (u0 as u32) >= 0,
                        ;
                    }
                }
                return None;
            }
            match char_from_u32(w) {
                Some(c2) => {
                    ch = c2;
                    k = 6;
                    proof {
                        assert((ch as u32) == w);
                        assert((w as int) / 16 == w / 16 && (w as int) % 16 == w % 16);
                        assert(esc_char(ch) =~= cs@.subrange(i as int, i + 6)) by {
                            assert(w == (w / 16) * 16 + w % 16);
                            assert(w / 16 == (w as int) / 16);
                        }
                    }
                },
                None => {
                    // `w` is below the surrogate range, so this arm cannot run.
                    return None;
                },
            }
        } else {
            proof {
                assert forall|u: Seq<char>, e: int|
                    #![trigger esc(u), cs@.subrange(i as int, e)]
                    i <= e <= cs@.len() && cs@.subrange(i as int, e) == esc(u) + seq!['"']
                    implies false by {
                    lemma_body_witness(cs@, i as int, u, e);
                    assert(u.len() > 0);
                    assert(esc_char(u[0])[0] == cs@[i as int]);
                    assert(esc_char(u[0])[1] == cs@[i + 1]);
                }
            }
            return None;
        }
        // One escape decoded; the rest of the body follows it.
        proof {
            assert(cs@.subrange(i as int, i + k as int) =~= esc_char(ch));
        }
        match scan_str_body(cs, i + k) {
            None => {
                proof {
                    assert forall|u: Seq<char>, e: int|
                        #![trigger esc(u), cs@.subrange(i as int, e)]
                        i <= e <= cs@.len() && cs@.subrange(i as int, e) == esc(u) + seq!['"']
                        implies false by {
                        lemma_body_witness(cs@, i as int, u, e);
                        assert(u.len() > 0);
                        lemma_escape_unique(cs@, i as int, u[0], ch, k as int);
                        let t = u.subrange(1, u.len() as int);
                        assert(cs@.subrange(i + k as int, e) == esc(t) + seq!['"']);
                    }
                }
                None
            },
            Some((rest, e2)) => {
                let ghost rv = rest@;
                let mut out: Vec<char> = rest;
                out.insert(0, ch);
                proof {
                    assert(out@[0] == ch);
                    assert(out@.subrange(1, out@.len() as int) =~= rv);
                    lemma_esc_front(out@);
                    assert(cs@.subrange(i as int, e2 as int) =~= esc_char(ch) + (esc(rv)
                        + seq!['"']));
                    assert(cs@.subrange(i as int, e2 as int) =~= esc(out@) + seq!['"']);
                    assert forall|u: Seq<char>, e: int|
                        #![trigger esc(u), cs@.subrange(i as int, e)]
                        i <= e <= cs@.len() && cs@.subrange(i as int, e) == esc(u) + seq!['"']
                        implies u == out@ && e == e2 as int by {
                        lemma_body_witness(cs@, i as int, u, e);
                        assert(u.len() > 0);
                        lemma_escape_unique(cs@, i as int, u[0], ch, k as int);
                        let t = u.subrange(1, u.len() as int);
                        assert(cs@.subrange(i + k as int, e) == esc(t) + seq!['"']);
                        assert(rv == t && e2 as int == e);
                        assert(u =~= out@);
                    }
                }
                Some((out, e2))
            },
        }
    } else if (c as u32) < 0x20 {
        proof {
            assert forall|u: Seq<char>, e: int|
                #![trigger esc(u), cs@.subrange(i as int, e)]
                i <= e <= cs@.len() && cs@.subrange(i as int, e) == esc(u) + seq!['"'] implies
                false by {
                lemma_body_witness(cs@, i as int, u, e);
                vstd::utf8::char_u32_cast(c, c as u32);
                if u.len() == 0 {
                    assert(cs@[i as int] == '"');
                } else {
                    assert(esc_char(u[0])[0] == cs@[i as int]);
                }
            }
        }
        None
    } else {
        // A plain character stands for itself.
        proof {
            assert(esc_char(c) =~= seq![c]);
            assert(cs@.subrange(i as int, i + 1) =~= esc_char(c));
        }
        match scan_str_body(cs, i + 1) {
            None => {
                proof {
                    assert forall|u: Seq<char>, e: int|
                        #![trigger esc(u), cs@.subrange(i as int, e)]
                        i <= e <= cs@.len() && cs@.subrange(i as int, e) == esc(u) + seq!['"']
                        implies false by {
                        lemma_body_witness(cs@, i as int, u, e);
                        assert(u.len() > 0);
                        assert(esc_char(u[0])[0] == cs@[i as int]);
                        assert(esc_char(u[0]) =~= seq![c]);
                        let t = u.subrange(1, u.len() as int);
                        assert(cs@.subrange(i + 1, e) == esc(t) + seq!['"']);
                    }
                }
                None
            },
            Some((rest, e2)) => {
                let ghost rv = rest@;
                let mut out: Vec<char> = rest;
                out.insert(0, c);
                proof {
                    assert(out@[0] == c);
                    assert(out@.subrange(1, out@.len() as int) =~= rv);
                    lemma_esc_front(out@);
                    assert(cs@.subrange(i as int, e2 as int) =~= esc_char(c) + (esc(rv)
                        + seq!['"']));
                    assert(cs@.subrange(i as int, e2 as int) =~= esc(out@) + seq!['"']);
                    assert forall|u: Seq<char>, e: int|
                        #![trigger esc(u), cs@.subrange(i as int, e)]
                        i <= e <= cs@.len() && cs@.subrange(i as int, e) == esc(u) + seq!['"']
                        implies u == out@ && e == e2 as int by {
                        lemma_body_witness(cs@, i as int, u, e);
                        assert(u.len() > 0);
                        assert(esc_char(u[0])[0] == cs@[i as int]);
                        assert(esc_char(u[0]) =~= seq![c]);
                        let t = u.subrange(1, u.len() as int);
                        assert(cs@.subrange(i + 1, e) == esc(t) + seq!['"']);
                        assert(rv == t && e2 as int == e);
                        assert(u =~= out@);
                    }
                }
                Some((out, e2))
            },
        }
    }
}


/// Two escapes that begin alike are the same escape: the decoded character
/// and the consumed width agree.
proof fn lemma_escape_unique(s: Seq<char>, i: int, u0: char, ch: char, k: int)
    requires
        0 <= i,
        i + k <= s.len(),
        k == esc_char(ch).len(),
        s.subrange(i, i + k) == esc_char(ch),
        i + esc_char(u0).len() <= s.len(),
        forall|x: int| 0 <= x < esc_char(u0).len() ==> #[trigger] esc_char(u0)[x] == s[i + x],
        esc_char(ch)[0] == '\\',
    ensures
        u0 == ch,
        esc_char(u0).len() == k,
{
    vstd::utf8::char_u32_cast(u0, u0 as u32);
    vstd::utf8::char_u32_cast(ch, ch as u32);
    assert(esc_char(u0)[0] == s[i]);
    assert(s[i] == '\\');
    if u0 == '"' || u0 == '\\' {
        assert(esc_char(u0)[1] == s[i + 1]);
        assert(esc_char(ch)[1] == s[i + 1]);
        if ch == '"' || ch == '\\' {
        } else if (ch as u32) < 0x20 {
            assert(esc_char(ch)[1] == 'u');
        }
    } else if (u0 as u32) < 0x20 {
        assert(esc_char(u0)[1] == s[i + 1]);
        assert(esc_char(u0)[1] == 'u');
        if ch == '"' || ch == '\\' {
            assert(esc_char(ch)[1] == s[i + 1]);
        } else {
            assert((ch as u32) < 0x20);
            assert(esc_char(u0)[4] == s[i + 4] && esc_char(u0)[5] == s[i + 5]);
            assert(esc_char(ch)[4] == s[i + 4] && esc_char(ch)[5] == s[i + 5]);
            let a0 = (u0 as u32) as int / 16;
            let b0 = (u0 as u32) as int % 16;
            let a1 = (ch as u32) as int / 16;
            let b1 = (ch as u32) as int % 16;
            lemma_hex_digit_val(a0);
            lemma_hex_digit_val(b0);
            lemma_hex_digit_val(a1);
            lemma_hex_digit_val(b1);
            assert(hex_digit(a0) == hex_digit(a1) && hex_digit(b0) == hex_digit(b1));
            assert(a0 == a1 && b0 == b1);
            assert((u0 as u32) == (ch as u32)) by (nonlinear_arith)
                requires
                    (u0 as u32) as int / 16 == (ch as u32) as int / 16,
                    (u0 as u32) as int % 16 == (ch as u32) as int % 16,
                    (u0 as u32) >= 0,
                    (ch as u32) >= 0,
            ;
        }
    } else {
        assert(esc_char(u0)[0] == u0);
    }
}

/// Scans a JSON string literal at `pos`.
fn scan_json_string(cs: &Vec<char>, pos: usize) -> (r: Option<(String, usize)>)
    requires
        pos <= cs@.len(),
    ensures
        r matches Some(p) ==> pos < p.1 <= cs@.len() && cs@.subrange(pos as int, p.1 as int)
            == json_str(p.0@),
        forall|u: Seq<char>, e: int|
            #![trigger json_str(u), cs@.subrange(pos as int, e)]
            pos <= e <= cs@.len() && cs@.subrange(pos as int, e) == json_str(u) ==> (
            r matches Some(p) && p.0@ == u && p.1 == e),
{
    proof {
        assert forall|u: Seq<char>, e: int|
            #![trigger json_str(u), cs@.subrange(pos as int, e)]
            pos <= e <= cs@.len() && cs@.subrange(pos as int, e) == json_str(u) implies pos < e
            && cs@[pos as int] == '"' && cs@.subrange(pos + 1, e) == esc(u) + seq!['"'] by {
            assert(cs@.subrange(pos as int, e).len() == e - pos);
            assert(cs@[pos as int] == json_str(u)[0]);
            assert(cs@.subrange(pos + 1, e) =~= esc(u) + seq!['"']) by {
                assert(forall|x: int|
                    pos <= x < e ==> #[trigger] cs@[x] == json_str(u)[x - pos]);
            }
        }
    }
    if pos >= cs.len() || cs[pos] != '"' {
        return None;
    }
    match scan_str_body(cs, pos + 1) {
        None => None,
        Some((content, e)) => {
            let text: String = chars_to_string(&content);
            proof {
                assert(cs@.subrange(pos as int, e as int) =~= seq!['"'] + (esc(content@)
                    + seq!['"']));
                assert(cs@.subrange(pos as int, e as int) == json_str(content@));
            }
            Some((text, e))
        },
    }
}

/// Scans the exact characters of `lit` at `pos`.
fn scan_lit(cs: &Vec<char>, pos: usize, lit: &str) -> (r: Option<usize>)
    ensures
        r matches Some(p) ==> p == pos + lit@.len() && pos + lit@.len() <= cs@.len()
            && cs@.subrange(pos as int, p as int) == lit@,
        pos + lit@.len() <= cs@.len() && cs@.subrange(pos as int, pos + lit@.len() as int)
            == lit@ ==> r is Some,
{
    let ls: Vec<char> = string_to_chars(lit);
    let m: usize = ls.len();
    let n: usize = cs.len();
    if pos > n || m > n - pos {
        return None;
    }
    let mut k: usize = 0;
    while k < m
        invariant
            k <= m,
            pos + m <= n,
            n == cs@.len(),
            m == ls@.len(),
            ls@ == lit@,
            forall|t: int| 0 <= t < k ==> #[trigger] cs@[pos + t] == ls@[t],
        decreases m - k,
    {
        if cs[pos + k] != ls[k] {
            proof {
                if cs@.subrange(pos as int, pos + m as int) == lit@ {
                    assert(cs@.subrange(pos as int, pos + m as int)[k as int] == lit@[k as int]);
                }
            }
            return None;
        }
        k = k + 1;
    }
    proof {
        assert forall|t: int|
            0 <= t < m implies cs@.subrange(pos as int, pos + m as int)[t] == lit@[t] by {
            assert(cs@[pos + t] == ls@[t]);
        }
        assert(cs@.subrange(pos as int, pos + m as int) =~= lit@);
    }
    Some(pos + m)
}

/// Scans `null` or a JSON string literal at `pos`.
fn scan_json_opt(cs: &Vec<char>, pos: usize) -> (r: Option<(Option<String>, usize)>)
    requires
        pos <= cs@.len(),
    ensures
        r matches Some(p) ==> pos < p.1 <= cs@.len() && cs@.subrange(pos as int, p.1 as int)
            == json_opt(opt_view(p.0)),
        forall|o: Option<Seq<char>>, e: int|
            #![trigger json_opt(o), cs@.subrange(pos as int, e)]
            pos <= e <= cs@.len() && cs@.subrange(pos as int, e) == json_opt(o) ==> (
            r matches Some(p) && opt_view(p.0) == o && p.1 == e),
{
    proof {
        reveal_strlit("null");
        assert("null"@ =~= seq!['n', 'u', 'l', 'l']);
    }
    match scan_lit(cs, pos, "null") {
        Some(p) => {
            proof {
                assert(cs@.subrange(pos as int, p as int) == json_opt(None::<Seq<char>>));
                assert forall|o: Option<Seq<char>>, e: int|
                    #![trigger json_opt(o), cs@.subrange(pos as int, e)]
                    pos <= e <= cs@.len() && cs@.subrange(pos as int, e) == json_opt(o) implies
                    o is None && e == p as int by {
                    match o {
                        Some(u) => {
                            assert(cs@.subrange(pos as int, e).len() == e - pos);
                            assert(json_str(u).len() >= 2);
                            assert(cs@.subrange(pos as int, e)[0] == json_str(u)[0]);
                            assert(cs@[pos as int] == json_str(u)[0]);
                            assert(cs@.subrange(pos as int, p as int)[0] == "null"@[0]);
                            assert(cs@[pos as int] == "null"@[0]);
                        },
                        None => {},
                    }
                    assert(json_opt(o).len() == 4);
                    assert(cs@.subrange(pos as int, e).len() == e - pos);
                }
            }
            Some((None, p))
        },
        None => match scan_json_string(cs, pos) {
            Some((s, p)) => {
                proof {
                    assert forall|o: Option<Seq<char>>, e: int|
                        #![trigger json_opt(o), cs@.subrange(pos as int, e)]
                        pos <= e <= cs@.len() && cs@.subrange(pos as int, e) == json_opt(
                            o,
                        ) implies (o matches Some(u) && u == s@ && e == p as int) by {
                        if o is None {
                            assert(cs@.subrange(pos as int, pos + 4) =~= "null"@) by {
                                assert(forall|x: int|
                                    pos <= x < e ==> #[trigger] cs@[x] == json_opt(o)[x
                                        - pos]);
                            }
                        }
                    }
                }
                Some((Some(s), p))
            },
            None => {
                proof {
                    assert forall|o: Option<Seq<char>>, e: int|
                        #![trigger json_opt(o), cs@.subrange(pos as int, e)]
                        pos <= e <= cs@.len() && cs@.subrange(pos as int, e) == json_opt(
                            o,
                        ) implies false by {
                        if o is None {
                            assert(cs@.subrange(pos as int, pos + 4) =~= "null"@) by {
                                assert(forall|x: int|
                                    pos <= x < e ==> #[trigger] cs@[x] == json_opt(o)[x
                                        - pos]);
                            }
                        }
                    }
                }
                None
            },
        },
    }
}

/// Parses one shard-file line: accepted exactly when it is the canonical
/// form of a snapshot, which is then returned.
pub fn parse_snapshot_line(line: &str) -> (r: Option<Snapshot>)
    ensures
        r matches Some(s) ==> line@ == snapshot_line(s@) && wf_snapshot(s@),
        forall|s: SnapV| wf_snapshot(s) && line@ == snapshot_line(s) ==> r is Some,
{
    let cs: Vec<char> = string_to_chars(line);
    scan_snapshot(&cs)
}

/// Where each fragment of a rendered snapshot line sits.
#[verifier::rlimit(100)]
#[verifier::spinoff_prover]
proof fn lemma_line_witness(cs: Seq<char>, s: SnapV)
    requires
        cs == snapshot_line(s),
    ensures
        ({
            let g2 = 8 + json_str(s.name).len() as int;
            let g4 = g2 + 8 + json_opt(s.desc).len() as int;
            let g6 = g4 + 8 + json_opt(s.repo).len() as int;
            let g8 = g6 + 7 + json_str(registry_id_name(s.reg)).len() as int;
            let g10 = g8 + 8 + json_str(render_version(s.vers)).len() as int;
            &&& cs.len() == g10 + 1
            &&& cs.subrange(0, 8) == "{\"name\":"@
            &&& cs.subrange(8, g2) == json_str(s.name)
            &&& cs.subrange(g2, g2 + 8) == ",\"desc\":"@
            &&& cs.subrange(g2 + 8, g4) == json_opt(s.desc)
            &&& cs.subrange(g4, g4 + 8) == ",\"repo\":"@
            &&& cs.subrange(g4 + 8, g6) == json_opt(s.repo)
            &&& cs.subrange(g6, g6 + 7) == ",\"reg\":"@
            &&& cs.subrange(g6 + 7, g8) == json_str(registry_id_name(s.reg))
            &&& cs.subrange(g8, g8 + 8) == ",\"vers\":"@
            &&& cs.subrange(g8 + 8, g10) == json_str(render_version(s.vers))
            &&& cs.subrange(g10, g10 + 1) == "}"@
        }),
{
    reveal_strlit("{\"name\":");
    reveal_strlit(",\"desc\":");
    reveal_strlit(",\"repo\":");
    reveal_strlit(",\"reg\":");
    reveal_strlit(",\"vers\":");
    reveal_strlit("}");
    let g2 = 8 + json_str(s.name).len() as int;
    let g4 = g2 + 8 + json_opt(s.desc).len() as int;
    let g6 = g4 + 8 + json_opt(s.repo).len() as int;
    let g8 = g6 + 7 + json_str(registry_id_name(s.reg)).len() as int;
    let g10 = g8 + 8 + json_str(render_version(s.vers)).len() as int;
    assert(cs.len() == g10 + 1);
    assert(cs.subrange(0, 8) =~= "{\"name\":"@);
    assert(cs.subrange(8, g2) =~= json_str(s.name));
    assert(cs.subrange(g2, g2 + 8) =~= ",\"desc\":"@);
    assert(cs.subrange(g2 + 8, g4) =~= json_opt(s.desc));
    assert(cs.subrange(g4, g4 + 8) =~= ",\"repo\":"@);
    assert(cs.subrange(g4 + 8, g6) =~= json_opt(s.repo));
    assert(cs.subrange(g6, g6 + 7) =~= ",\"reg\":"@);
    assert(cs.subrange(g6 + 7, g8) =~= json_str(registry_id_name(s.reg)));
    assert(cs.subrange(g8, g8 + 8) =~= ",\"vers\":"@);
    assert(cs.subrange(g8 + 8, g10) =~= json_str(render_version(s.vers)));
    assert(cs.subrange(g10, g10 + 1) =~= "}"@);
}

/// The scan behind `parse_snapshot_line`.
#[verifier::rlimit(100)]
#[verifier::spinoff_prover]
fn scan_snapshot(cs: &Vec<char>) -> (r: Option<Snapshot>)
    ensures
        r matches Some(s) ==> cs@ == snapshot_line(s@) && wf_snapshot(s@),
        forall|s: SnapV| wf_snapshot(s) && cs@ == snapshot_line(s) ==> r is Some,
{
    proof {
        assert forall|s: SnapV| wf_snapshot(s) && cs@ == snapshot_line(s) implies ({
            let g2 = 8 + json_str(s.name).len() as int;
            let g4 = g2 + 8 + json_opt(s.desc).len() as int;
            let g6 = g4 + 8 + json_opt(s.repo).len() as int;
            let g8 = g6 + 7 + json_str(registry_id_name(s.reg)).len() as int;
            let g10 = g8 + 8 + json_str(render_version(s.vers)).len() as int;
            &&& cs@.len() == g10 + 1
            &&& cs@.subrange(0, 8) == "{\"name\":"@
            &&& cs@.subrange(8, g2) == json_str(s.name)
            &&& cs@.subrange(g2, g2 + 8) == ",\"desc\":"@
            &&& cs@.subrange(g2 + 8, g4) == json_opt(s.desc)
            &&& cs@.subrange(g4, g4 + 8) == ",\"repo\":"@
            &&& cs@.subrange(g4 + 8, g6) == json_opt(s.repo)
            &&& cs@.subrange(g6, g6 + 7) == ",\"reg\":"@
            &&& cs@.subrange(g6 + 7, g8) == json_str(registry_id_name(s.reg))
            &&& cs@.subrange(g8, g8 + 8) == ",\"vers\":"@
            &&& cs@.subrange(g8 + 8, g10) == json_str(render_version(s.vers))
            &&& cs@.subrange(g10, g10 + 1) == "}"@
        }) by {
            lemma_line_witness(cs@, s);
        }
        reveal_strlit("{\"name\":");
        reveal_strlit(",\"desc\":");
        reveal_strlit(",\"repo\":");
        reveal_strlit(",\"reg\":");
        reveal_strlit(",\"vers\":");
        reveal_strlit("}");
    }
    let p0: usize = match scan_lit(cs, 0, "{\"name\":") {
        Some(p) => p,
        None => {
            return None;
        },
    };
    let (name, p1): (String, usize) = match scan_json_string(cs, p0) {
        Some(x) => x,
        None => {
            return None;
        },
    };
    let p2: usize = match scan_lit(cs, p1, ",\"desc\":") {
        Some(p) => p,
        None => {
            return None;
        },
    };
    let (desc, p3): (Option<String>, usize) = match scan_json_opt(cs, p2) {
        Some(x) => x,
        None => {
            return None;
        },
    };
    let p4: usize = match scan_lit(cs, p3, ",\"repo\":") {
        Some(p) => p,
        None => {
            return None;
        },
    };
    let (repo, p5): (Option<String>, usize) = match scan_json_opt(cs, p4) {
        Some(x) => x,
        None => {
            return None;
        },
    };
    let p6: usize = match scan_lit(cs, p5, ",\"reg\":") {
        Some(p) => p,
        None => {
            return None;
        },
    };
    let (reg_name, p7): (String, usize) = match scan_json_string(cs, p6) {
        Some(x) => x,
        None => {
            return None;
        },
    };
    let p8: usize = match scan_lit(cs, p7, ",\"vers\":") {
        Some(p) => p,
        None => {
            return None;
        },
    };
    let (vers_text, p9): (String, usize) = match scan_json_string(cs, p8) {
        Some(x) => x,
        None => {
            return None;
        },
    };
    let p10: usize = match scan_lit(cs, p9, "}") {
        Some(p) => p,
        None => {
            return None;
        },
    };
    if p10 != cs.len() {
        return None;
    }
    let reg: RegistryId = RegistryId::from_name(reg_name.as_str());
    let canonical_reg: String = reg.name();
    if !reg_name.eq(&canonical_reg) {
        proof {
            assert forall|s: SnapV| wf_snapshot(s) && cs@ == snapshot_line(s) implies false by {
                crate::registries::lemma_registry_name_id(s.reg);
            }
        }
        return None;
    }
    let vers_chars: Vec<char> = string_to_chars(vers_text.as_str());
    let vers: crate::version::Version = match crate::canon::parse_version_exact(
        &vers_chars,
        0,
        vers_chars.len(),
    ) {
        Some(v) => v,
        None => {
            proof {
                assert forall|s: SnapV| wf_snapshot(s) && cs@ == snapshot_line(
                    s,
                ) implies false by {
                    assert(vers_text@ == render_version(s.vers));
                    assert(vers_chars@.subrange(0, vers_chars@.len() as int) =~= vers_chars@);
                }
            }
            return None;
        },
    };
    let snap = Snapshot { name, desc, repo, reg, vers };
    proof {
        assert(vers_chars@.subrange(0, vers_chars@.len() as int) =~= vers_chars@);
        assert(vers_text@ == render_version(vers@));
        assert(reg_name@ == registry_id_name(reg));
        assert(cs@ =~= cs@.subrange(0, p0 as int) + cs@.subrange(p0 as int, p1 as int)
            + cs@.subrange(p1 as int, p2 as int) + cs@.subrange(p2 as int, p3 as int)
            + cs@.subrange(p3 as int, p4 as int) + cs@.subrange(p4 as int, p5 as int)
            + cs@.subrange(p5 as int, p6 as int) + cs@.subrange(p6 as int, p7 as int)
            + cs@.subrange(p7 as int, p8 as int) + cs@.subrange(p8 as int, p9 as int)
            + cs@.subrange(p9 as int, p10 as int));
        assert(cs@ == snapshot_line(snap@));
    }
    Some(snap)
}

/// Loads a shard file's lines.  Every line must be the canonical form of a
/// snapshot; any line that is not makes the whole load fail — a store whose
/// content cannot be trusted is never silently widened.  A file of
/// canonical lines always loads.
pub fn load_snapshots(lines: &Vec<String>) -> (r: Result<
    Vec<Snapshot>,
    crate::error::DepsError,
>)
    ensures
        r matches Ok(snaps) ==> snaps@.len() == lines@.len() && forall|i: int|
            0 <= i < snaps@.len() ==> lines@[i]@ == snapshot_line(#[trigger] snaps@[i]@)
                && wf_snapshot(snaps@[i]@),
        (forall|i: int|
            0 <= i < lines@.len() ==> exists|s: SnapV|
                wf_snapshot(s) && #[trigger] lines@[i]@ == snapshot_line(s)) ==> r is Ok,
{
    let n: usize = lines.len();
    let mut snaps: Vec<Snapshot> = Vec::new();
    let mut i: usize = 0;
    while i < n
        invariant
            n == lines@.len(),
            i <= n,
            snaps@.len() == i as int,
            forall|k: int|
                0 <= k < i ==> lines@[k]@ == snapshot_line(#[trigger] snaps@[k]@) && wf_snapshot(
                    snaps@[k]@,
                ),
        decreases n - i,
    {
        match parse_snapshot_line(lines[i].as_str()) {
            Some(s) => {
                snaps.push(s);
            },
            None => {
                proof {
                    if forall|k: int|
                        0 <= k < lines@.len() ==> exists|s: SnapV|
                            wf_snapshot(s) && #[trigger] lines@[k]@ == snapshot_line(s) {
                        let s = choose|s: SnapV|
                            wf_snapshot(s) && lines@[i as int]@ == snapshot_line(s);
                        assert(wf_snapshot(s) && lines@[i as int]@ == snapshot_line(s));
                    }
                }
                return Err(crate::error::DepsError::Invalid);
            },
        }
        i = i + 1;
    }
    Ok(snaps)
}

// ---------------------------------------------------------------------------
// Manifests: `new.json` and `updated.json` hold a JSON array of module
// records (a module's versions as an array of canonical version strings);
// `registry.json` holds the registry descriptor.
// ---------------------------------------------------------------------------

/// The JSON form of a version list.
pub open spec fn versions_json(vs: Seq<crate::version::VersionV>) -> Seq<char>
    decreases vs.len(),
{
    if vs.len() == 0 {
        Seq::empty()
    } else if vs.len() == 1 {
        json_str(render_version(vs[0]))
    } else {
        versions_json(vs.drop_last()) + seq![','] + json_str(render_version(vs.last()))
    }
}

/// The JSON form of one module record.
pub open spec fn module_json(m: ModuleV) -> Seq<char> {
    "{\"name\":"@ + json_str(m.name) + ",\"desc\":"@ + json_opt(m.desc) + ",\"repo\":"@
        + json_opt(m.repo) + ",\"reg\":"@ + json_str(registry_id_name(m.reg)) + ",\"vers\":["@
        + versions_json(m.vers) + "]}"@
}

/// The JSON form of a module list.
pub open spec fn modules_json(ms: Seq<ModuleV>) -> Seq<char>
    decreases ms.len(),
{
    if ms.len() == 0 {
        Seq::empty()
    } else if ms.len() == 1 {
        module_json(ms[0])
    } else {
        modules_json(ms.drop_last()) + seq![','] + module_json(ms.last())
    }
}

/// The JSON array of module records, the content of `new.json` and
/// `updated.json`.
pub open spec fn manifest_json(ms: Seq<ModuleV>) -> Seq<char> {
    seq!['['] + modules_json(ms) + seq![']']
}

/// Renders one module record.
fn render_module_json(m: &Module, out: &mut Vec<char>)
    ensures
        final(out)@ == old(out)@ + module_json(m@),
{
    push_str_chars("{\"name\":", out);
    push_json_str(m.name.as_str(), out);
    push_str_chars(",\"desc\":", out);
    push_json_opt(&m.desc, out);
    push_str_chars(",\"repo\":", out);
    push_json_opt(&m.repo, out);
    push_str_chars(",\"reg\":", out);
    let reg_name: String = m.reg.name();
    push_json_str(reg_name.as_str(), out);
    push_str_chars(",\"vers\":[", out);
    let ghost mvers = m@.vers;
    let n: usize = m.vers.len();
    let ghost mid = out@;
    let mut j: usize = 0;
    proof {
        assert(mvers.subrange(0, 0) =~= Seq::<crate::version::VersionV>::empty());
        assert(out@ =~= mid + versions_json(mvers.subrange(0, 0)));
    }
    while j < n
        invariant
            n == m.vers@.len(),
            mvers == m@.vers,
            mvers.len() == n,
            j <= n,
            out@ == mid + versions_json(mvers.subrange(0, j as int)),
        decreases n - j,
    {
        if j > 0 {
            out.push(',');
        }
        let text: String = m.vers[j].display();
        push_json_str(text.as_str(), out);
        proof {
            assert(mvers[j as int] == m.vers@[j as int]@);
            let pre = mvers.subrange(0, j as int);
            let cur = mvers.subrange(0, j + 1);
            assert(cur.drop_last() =~= pre);
            assert(cur.last() == mvers[j as int]);
            if j == 0 {
                assert(versions_json(cur) == json_str(render_version(mvers[0])));
            }
            assert(out@ =~= mid + versions_json(cur));
        }
        j = j + 1;
    }
    proof {
        assert(mvers.subrange(0, n as int) =~= mvers);
    }
    push_str_chars("]}", out);
    proof {
        assert(out@ =~= old(out)@ + module_json(m@));
    }
}

/// Renders the JSON array of module records.
pub fn render_manifest(ms: &Vec<Module>) -> (r: String)
    ensures
        r@ == manifest_json(modules_view(ms@)),
{
    let ghost mv = modules_view(ms@);
    let mut out: Vec<char> = Vec::new();
    out.push('[');
    let ghost mid = out@;
    let n: usize = ms.len();
    let mut i: usize = 0;
    proof {
        assert(mv.subrange(0, 0) =~= Seq::<ModuleV>::empty());
        assert(out@ =~= mid + modules_json(mv.subrange(0, 0)));
    }
    while i < n
        invariant
            n == ms@.len(),
            mv == modules_view(ms@),
            mv.len() == n,
            i <= n,
            out@ == mid + modules_json(mv.subrange(0, i as int)),
        decreases n - i,
    {
        if i > 0 {
            out.push(',');
        }
        render_module_json(&ms[i], &mut out);
        proof {
            assert(mv[i as int] == ms@[i as int]@);
            let pre = mv.subrange(0, i as int);
            let cur = mv.subrange(0, i + 1);
            assert(cur.drop_last() =~= pre);
            assert(cur.last() == mv[i as int]);
            if i == 0 {
                assert(modules_json(cur) == module_json(mv[0]));
            }
            assert(out@ =~= mid + modules_json(cur));
        }
        i = i + 1;
    }
    proof {
        assert(mv.subrange(0, n as int) =~= mv);
    }
    out.push(']');
    proof {
        assert(out@ =~= seq!['['] + modules_json(mv) + seq![']']);
    }
    chars_to_string(&out)
}

/// The JSON form of a registry descriptor, the content of `registry.json`.
pub open spec fn registry_json(id: RegistryId) -> Seq<char> {
    "{\"raw_url\":"@ + json_str(registry_raw_url(id)) + "}"@
}

/// Renders the registry descriptor.
pub fn render_registry_json(info: &RegistryInfo, id: RegistryId) -> (r: String)
    requires
        info.raw_url@ == registry_raw_url(id),
    ensures
        r@ == registry_json(id),
{
    let mut out: Vec<char> = Vec::new();
    push_str_chars("{\"raw_url\":", &mut out);
    push_json_str(info.raw_url.as_str(), &mut out);
    push_str_chars("}", &mut out);
    proof {
        assert(out@ =~= registry_json(id));
    }
    chars_to_string(&out)
}


} // verus!
