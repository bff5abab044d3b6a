use vstd::prelude::*;
use crate::text::{is_space, is_ident_char, all_digits, digits_val, string_to_chars,
    chars_to_string};

verus! {

// ---------------------------------------------------------------------------
// Data model
//
// A version is a semantic-version core plus a display-only flag recording
// whether the parsed text carried a leading `v`.  Equality and ordering are
// defined over the core alone (and, following semantic-version precedence,
// ignore build metadata); the flag only affects display.
// ---------------------------------------------------------------------------

/// One dot-separated pre-release or build identifier.
#[derive(Debug, Clone)]
pub enum Identifier {
    /// An identifier that is solely a number.
    Numeric(u64),
    /// An identifier with letters, hyphens, or a non-canonical number form.
    AlphaNumeric(String),
}

/// The comparable part of a semantic version.
#[derive(Debug, Clone)]
pub struct VersionCore {
    pub major: u64,
    pub minor: u64,
    pub patch: u64,
    pub pre: Vec<Identifier>,
    pub build: Vec<Identifier>,
}

/// A semantic version with an optional display-only `v` prefix.
#[derive(Debug, Clone)]
pub struct Version {
    pub inner: VersionCore,
    pub v: bool,
}

/// The version-parse error of this crate; carries the parser's message.
#[derive(Debug, Clone, PartialEq)]
pub enum SemVerError {
    ParseError(String),
}

impl SemVerError {
    /// The parser's message, for reporting.
    pub fn message(&self) -> (r: String)
        ensures
            (match self {
                SemVerError::ParseError(m) => r@ == m@,
            }),
    {
        match self {
            SemVerError::ParseError(m) => m.clone(),
        }
    }
}

// ---------------------------------------------------------------------------
// Mathematical views: contracts speak of these, not of the heap shapes.
// ---------------------------------------------------------------------------

/// View of an identifier.
pub enum IdentV {
    Num(u64),
    Alpha(Seq<char>),
}

/// View of a version core.
pub struct CoreV {
    pub major: u64,
    pub minor: u64,
    pub patch: u64,
    pub pre: Seq<IdentV>,
    pub build: Seq<IdentV>,
}

/// View of a version.
pub struct VersionV {
    pub core: CoreV,
    pub v: bool,
}

impl View for Identifier {
    type V = IdentV;

    open spec fn view(&self) -> IdentV {
        match self {
            Identifier::Numeric(n) => IdentV::Num(*n),
            Identifier::AlphaNumeric(s) => IdentV::Alpha(s@),
        }
    }
}

impl View for VersionCore {
    type V = CoreV;

    open spec fn view(&self) -> CoreV {
        CoreV {
            major: self.major,
            minor: self.minor,
            patch: self.patch,
            pre: self.pre@.map_values(|i: Identifier| i@),
            build: self.build@.map_values(|i: Identifier| i@),
        }
    }
}

impl View for Version {
    type V = VersionV;

    open spec fn view(&self) -> VersionV {
        VersionV { core: self.inner@, v: self.v }
    }
}

// ---------------------------------------------------------------------------
// Well-formedness
//
// What can come out of the semantic-version grammar: identifiers are
// non-empty runs of ASCII letters, digits and hyphens, and an alphanumeric
// identifier is never the canonical decimal form of a `u64` (such a run is
// classified as numeric by the grammar).
// ---------------------------------------------------------------------------

/// A character run that is exactly the canonical decimal form of a `u64`:
/// all digits, no leading zero (a lone `0` aside), and within range.
pub open spec fn canonical_number(s: Seq<char>) -> bool {
    &&& s.len() > 0
    &&& all_digits(s)
    &&& (s[0] != '0' || s.len() == 1)
    &&& digits_val(s) <= u64::MAX
}

pub open spec fn wf_ident(id: IdentV) -> bool {
    match id {
        IdentV::Num(_) => true,
        IdentV::Alpha(s) => {
            &&& s.len() > 0
            &&& forall|i: int| 0 <= i < s.len() ==> is_ident_char(#[trigger] s[i])
            &&& !canonical_number(s)
        },
    }
}

pub open spec fn wf_idents(ids: Seq<IdentV>) -> bool {
    forall|i: int| 0 <= i < ids.len() ==> wf_ident(#[trigger] ids[i])
}

pub open spec fn wf_core(c: CoreV) -> bool {
    wf_idents(c.pre) && wf_idents(c.build)
}

pub open spec fn wf_version(v: VersionV) -> bool {
    wf_core(v.core)
}

// ---------------------------------------------------------------------------
// The normalization pipeline of `Version::parse`: trim ASCII whitespace,
// take the part after the last `@`, strip a single leading `v`.
// ---------------------------------------------------------------------------

pub open spec fn trim_front(s: Seq<char>) -> Seq<char>
    decreases s.len(),
{
    if s.len() > 0 && is_space(s[0]) {
        trim_front(s.subrange(1, s.len() as int))
    } else {
        s
    }
}

pub open spec fn trim_back(s: Seq<char>) -> Seq<char>
    decreases s.len(),
{
    if s.len() > 0 && is_space(s.last()) {
        trim_back(s.drop_last())
    } else {
        s
    }
}

pub open spec fn trim_spec(s: Seq<char>) -> Seq<char> {
    trim_back(trim_front(s))
}

/// The part of `s` after its last `@`; all of `s` when it has none.
pub open spec fn after_last_at(s: Seq<char>) -> Seq<char>
    decreases s.len(),
{
    if s.len() == 0 {
        s
    } else if s.last() == '@' {
        Seq::empty()
    } else {
        after_last_at(s.drop_last()).push(s.last())
    }
}

/// The version body: input trimmed, wrapper up to the last `@` removed.
pub open spec fn version_body(s: Seq<char>) -> Seq<char> {
    after_last_at(trim_spec(s))
}

pub open spec fn version_has_v(s: Seq<char>) -> bool {
    version_body(s).len() > 0 && version_body(s)[0] == 'v'
}

/// What is handed to the semantic-version grammar: the body with a single
/// leading `v` stripped.
pub open spec fn version_base(s: Seq<char>) -> Seq<char> {
    if version_has_v(s) {
        version_body(s).subrange(1, version_body(s).len() as int)
    } else {
        version_body(s)
    }
}

pub open spec fn hyphen_count(s: Seq<char>) -> int
    decreases s.len(),
{
    if s.len() == 0 {
        0
    } else {
        hyphen_count(s.drop_last()) + if s.last() == '-' {
            1int
        } else {
            0int
        }
    }
}

// ---------------------------------------------------------------------------
// The trusted boundary to the `semver` crate.
// ---------------------------------------------------------------------------

/// What `semver::Version::parse` returns on a given character sequence;
/// the grammar is too large to restate, so the result only gets a name.
pub uninterp spec fn semver_parse_of(s: Seq<char>) -> Result<CoreV, Seq<char>>;

/// Relies on `semver::Version::parse` (with `semver_parser::version::parse`
/// underneath): the result is a function of the input characters alone; on
/// success every pre-release and build identifier is a non-empty run of ASCII
/// letters, digits and hyphens, and an alphanumeric identifier is never the
/// canonical decimal form of a `u64` (the lexer classifies those as numeric).
/// The parser recurses once per hyphen-joined identifier part and panics past
/// 255 of them, so inputs with more hyphens than that are excluded here.
#[verifier::external_body]
fn semver_parse(s: &str) -> (r: Result<VersionCore, String>)
    requires
        hyphen_count(s@) <= 255,
    ensures
        r is Ok <==> semver_parse_of(s@) is Ok,
        r is Ok ==> (r->Ok_0)@ == semver_parse_of(s@)->Ok_0 && wf_core((r->Ok_0)@),
        r is Err ==> (r->Err_0)@ == semver_parse_of(s@)->Err_0,
{
    let conv = |i: semver::Identifier| match i {
        semver::Identifier::Numeric(n) => Identifier::Numeric(n),
        semver::Identifier::AlphaNumeric(a) => Identifier::AlphaNumeric(a),
    };
    match semver::Version::parse(s) {
        Err(semver::SemVerError::ParseError(m)) => Err(m),
        Ok(v) => Ok(VersionCore {
            major: v.major,
            minor: v.minor,
            patch: v.patch,
            pre: v.pre.into_iter().map(conv).collect(),
            build: v.build.into_iter().map(conv).collect(),
        }),
    }
}

// ---------------------------------------------------------------------------
// Lemmas connecting index scans to the pipeline spec functions.
// ---------------------------------------------------------------------------

proof fn lemma_trim_front_at(s: Seq<char>, lo: int)
    requires
        0 <= lo <= s.len(),
        forall|k: int| 0 <= k < lo ==> is_space(#[trigger] s[k]),
        lo == s.len() || !is_space(s[lo]),
    ensures
        trim_front(s) == s.subrange(lo, s.len() as int),
    decreases lo,
{
    if lo == 0 {
        assert(s.subrange(0, s.len() as int) =~= s);
    } else {
        let t = s.subrange(1, s.len() as int);
        assert(is_space(s[0]));
        assert(forall|k: int| 0 <= k < lo - 1 ==> is_space(#[trigger] t[k]));
        lemma_trim_front_at(t, lo - 1);
        assert(t.subrange(lo - 1, t.len() as int) =~= s.subrange(lo, s.len() as int));
    }
}

proof fn lemma_trim_back_at(s: Seq<char>, hi: int)
    requires
        0 <= hi <= s.len(),
        forall|k: int| hi <= k < s.len() ==> is_space(#[trigger] s[k]),
        hi == 0 || !is_space(s[hi - 1]),
    ensures
        trim_back(s) == s.subrange(0, hi),
    decreases s.len(),
{
    if hi == s.len() {
        if s.len() > 0 {
            assert(!is_space(s.last()));
        }
        assert(s.subrange(0, s.len() as int) =~= s);
    } else {
        assert(is_space(s.last()));
        lemma_trim_back_at(s.drop_last(), hi);
        assert(s.drop_last().subrange(0, hi) =~= s.subrange(0, hi));
    }
}

proof fn lemma_after_last_at_found(s: Seq<char>, j: int)
    requires
        0 <= j < s.len(),
        s[j] == '@',
        forall|k: int| j < k < s.len() ==> s[k] != '@',
    ensures
        after_last_at(s) == s.subrange(j + 1, s.len() as int),
    decreases s.len(),
{
    if j == s.len() - 1 {
        assert(s.last() == '@');
        assert(s.subrange(j + 1, s.len() as int) =~= Seq::<char>::empty());
    } else {
        assert(s.last() != '@');
        lemma_after_last_at_found(s.drop_last(), j);
        assert(s.drop_last().subrange(j + 1, s.len() - 1).push(s.last()) =~= s.subrange(
            j + 1,
            s.len() as int,
        ));
    }
}

proof fn lemma_after_last_at_none(s: Seq<char>)
    requires
        forall|k: int| 0 <= k < s.len() ==> s[k] != '@',
    ensures
        after_last_at(s) == s,
    decreases s.len(),
{
    if s.len() > 0 {
        assert(s.last() != '@');
        lemma_after_last_at_none(s.drop_last());
        assert(s.drop_last().push(s.last()) =~= s);
    }
}

proof fn lemma_hyphen_count_step(s: Seq<char>, i: int)
    requires
        0 <= i < s.len(),
    ensures
        hyphen_count(s.subrange(0, i + 1)) == hyphen_count(s.subrange(0, i)) + if s[i] == '-' {
            1int
        } else {
            0int
        },
{
    assert(s.subrange(0, i + 1).drop_last() =~= s.subrange(0, i));
    assert(s.subrange(0, i + 1).last() == s[i]);
}

// ---------------------------------------------------------------------------
// Parsing
// ---------------------------------------------------------------------------

/// What `Version::parse` returns: with at most 255 hyphens in the base, it
/// succeeds exactly when the grammar accepts the base, carrying the parsed
/// core and the `v` flag; otherwise it carries the grammar's message.  A base
/// with more hyphens is rejected outright (the grammar's implementation does
/// not accept it either, but by panicking).
pub open spec fn parse_result(s: Seq<char>, r: Result<Version, SemVerError>) -> bool {
    if hyphen_count(version_base(s)) > 255 {
        r matches Err(SemVerError::ParseError(t)) && t@
            == "too many hyphen-joined identifier parts"@
    } else {
        match semver_parse_of(version_base(s)) {
            Ok(c) => r is Ok && (r->Ok_0)@ == (VersionV { core: c, v: version_has_v(s) }),
            Err(m) => r matches Err(SemVerError::ParseError(t)) && t@ == m,
        }
    }
}

impl Version {
    /// Parses a version string: trims it, keeps only the part after the last
    /// `@` (the `name@version` convention), strips a single leading `v`
    /// (recorded for display), and hands the rest to the semantic-version
    /// grammar.  Trimming removes ASCII whitespace (space, tab, carriage
    /// return, line feed) — the same set the grammar itself skips; text
    /// padded with any other whitespace fails in the grammar either way.
    pub fn parse(s: &str) -> (r: Result<Version, SemVerError>)
        ensures
            parse_result(s@, r),
            r is Ok ==> wf_version((r->Ok_0)@),
    {
        let cs: Vec<char> = string_to_chars(s);
        let n: usize = cs.len();

        // Trim ASCII whitespace.
        let mut lo: usize = 0;
        while lo < n && is_space_char(cs[lo])
            invariant
                n == cs@.len(),
                lo <= n,
                forall|k: int| 0 <= k < lo ==> is_space(#[trigger] cs@[k]),
            decreases n - lo,
        {
            lo = lo + 1;
        }
        let mut hi: usize = n;
        while hi > lo && is_space_char(cs[hi - 1])
            invariant
                n == cs@.len(),
                lo <= hi <= n,
                forall|k: int| hi <= k < n ==> is_space(#[trigger] cs@[k]),
            decreases hi,
        {
            hi = hi - 1;
        }
        proof {
            lemma_trim_front_at(cs@, lo as int);
            let t = cs@.subrange(lo as int, n as int);
            assert(forall|k: int|
                hi - lo <= k < t.len() ==> is_space(#[trigger] t[k]));
            lemma_trim_back_at(t, hi - lo);
            assert(t.subrange(0, hi - lo) =~= cs@.subrange(lo as int, hi as int));
        }

        // Keep only what follows the last `@`, if any.
        let mut at: usize = hi;
        while at > lo && cs[at - 1] != '@'
            invariant
                n == cs@.len(),
                lo <= at <= hi <= n,
                forall|k: int| at <= k < hi ==> cs@[k] != '@',
            decreases at,
        {
            at = at - 1;
        }
        let b_lo: usize;
        if at > lo {
            // cs[at - 1] is the last `@` inside the trimmed range.
            b_lo = at;
            proof {
                let t = cs@.subrange(lo as int, hi as int);
                assert(t[at - 1 - lo] == '@');
                assert(forall|k: int| at - lo <= k < t.len() ==> t[k] != '@');
                lemma_after_last_at_found(t, at - 1 - lo);
                assert(t.subrange(at - lo, t.len() as int) =~= cs@.subrange(
                    at as int,
                    hi as int,
                ));
            }
        } else {
            b_lo = lo;
            proof {
                let t = cs@.subrange(lo as int, hi as int);
                assert(forall|k: int| 0 <= k < t.len() ==> t[k] != '@');
                lemma_after_last_at_none(t);
            }
        }
        assert(version_body(s@) == cs@.subrange(b_lo as int, hi as int));

        // Strip a single leading `v`.
        let vb_lo: usize;
        let has_v: bool;
        if b_lo < hi && cs[b_lo] == 'v' {
            vb_lo = b_lo + 1;
            has_v = true;
        } else {
            vb_lo = b_lo;
            has_v = false;
        }
        proof {
            assert(has_v == version_has_v(s@));
            if has_v {
                assert(cs@.subrange(b_lo as int, hi as int).subrange(
                    1,
                    hi - b_lo,
                ) =~= cs@.subrange(vb_lo as int, hi as int));
            }
            assert(version_base(s@) == cs@.subrange(vb_lo as int, hi as int));
        }

        // The grammar's implementation panics past 255 hyphen-joined
        // identifier parts; reject such inputs as unparsable instead.
        let mut hyphens: usize = 0;
        let mut i: usize = vb_lo;
        proof {
            assert(cs@.subrange(vb_lo as int, vb_lo as int) =~= Seq::<char>::empty());
        }
        while i < hi
            invariant
                n == cs@.len(),
                vb_lo <= i <= hi <= n,
                hyphens <= i - vb_lo,
                hyphens as int == hyphen_count(cs@.subrange(vb_lo as int, i as int)),
            decreases hi - i,
        {
            proof {
                lemma_hyphen_count_step(
                    cs@.subrange(vb_lo as int, hi as int),
                    i - vb_lo,
                );
                assert(cs@.subrange(vb_lo as int, hi as int).subrange(
                    0,
                    i - vb_lo,
                ) =~= cs@.subrange(vb_lo as int, i as int));
                assert(cs@.subrange(vb_lo as int, hi as int).subrange(
                    0,
                    i - vb_lo + 1,
                ) =~= cs@.subrange(vb_lo as int, i + 1));
            }
            if cs[i] == '-' {
                hyphens = hyphens + 1;
            }
            i = i + 1;
        }
        proof {
            assert(cs@.subrange(vb_lo as int, hi as int) =~= cs@.subrange(
                vb_lo as int,
                i as int,
            ));
        }
        if hyphens > 255 {
            return Err(SemVerError::ParseError(String::from_str(
                "too many hyphen-joined identifier parts",
            )));
        }

        // Hand the base to the grammar.
        let mut base: Vec<char> = Vec::new();
        let mut j: usize = vb_lo;
        while j < hi
            invariant
                n == cs@.len(),
                vb_lo <= j <= hi <= n,
                base@ == cs@.subrange(vb_lo as int, j as int),
            decreases hi - j,
        {
            base.push(cs[j]);
            j = j + 1;
            assert(base@ =~= cs@.subrange(vb_lo as int, j as int));
        }
        let base_str: String = chars_to_string(&base);
        match semver_parse(base_str.as_str()) {
            Ok(core) => Ok(Version { inner: core, v: has_v }),
            Err(m) => Err(SemVerError::ParseError(m)),
        }
    }

    /// The comparable semantic-version core.
    pub fn semver(&self) -> (r: &VersionCore)
        ensures
            r == &self.inner,
    {
        &self.inner
    }
}

/// The view of a successful parse of `s`, `None` when parsing fails: the
/// functional summary of `Version::parse`.
pub open spec fn parse_of(s: Seq<char>) -> Option<VersionV> {
    if hyphen_count(version_base(s)) > 255 {
        None
    } else {
        match semver_parse_of(version_base(s)) {
            Ok(c) => Some(VersionV { core: c, v: version_has_v(s) }),
            Err(_) => None,
        }
    }
}

/// `parse_result` and `parse_of` agree.
pub proof fn lemma_parse_of(s: Seq<char>, r: Result<Version, SemVerError>)
    requires
        parse_result(s, r),
    ensures
        r is Ok <==> parse_of(s) is Some,
        r is Ok ==> Some((r->Ok_0)@) == parse_of(s),
{
}

/// Prefix-ignored law: for a plain version text (no `@` wrapper, no edge
/// whitespace, not already `v`-prefixed), parsing with and without a leading
/// `v` succeeds on exactly the same inputs and yields versions that are
/// equal, the prefix affecting only the display flag.
pub proof fn lemma_v_prefix_ignored(s: Seq<char>)
    requires
        s.len() > 0,
        s[0] != 'v',
        !is_space(s[0]),
        !is_space(s.last()),
        forall|k: int| 0 <= k < s.len() ==> s[k] != '@',
    ensures
        parse_of(seq!['v'] + s) is Some <==> parse_of(s) is Some,
        parse_of(seq!['v'] + s) matches Some(vt) ==> parse_of(s) matches Some(vs)
            && crate::order::version_eq_spec(vt, vs) && vt.v && !vs.v,
{
    let t = seq!['v'] + s;
    assert(t.len() == s.len() + 1);
    assert(t[0] == 'v');
    assert(t.last() == s.last());
    assert(forall|k: int| 0 <= k < t.len() ==> #[trigger] t[k] != '@') by {
        assert(forall|k: int| 1 <= k < t.len() ==> t[k] == s[k - 1]);
    }
    lemma_untouched_body(s);
    lemma_untouched_body(t);
    assert(version_body(s) == s);
    assert(version_body(t) == t);
    assert(version_has_v(t));
    assert(!version_has_v(s));
    assert(version_base(t) =~= s);
    assert(version_base(s) == s);
    if parse_of(t) is Some {
        let vt = parse_of(t)->Some_0;
        let vs = parse_of(s)->Some_0;
        assert(vt.core == vs.core);
        crate::order::lemma_version_eq_refl_core(vt, vs);
    }
}

/// A text with no `@` and no edge whitespace is its own version body.
proof fn lemma_untouched_body(s: Seq<char>)
    requires
        s.len() == 0 || (!is_space(s[0]) && !is_space(s.last())),
        forall|k: int| 0 <= k < s.len() ==> s[k] != '@',
    ensures
        version_body(s) == s,
{
    assert(trim_front(s) == s);
    assert(trim_back(s) == s);
    lemma_after_last_at_none(s);
}


// ---------------------------------------------------------------------------
// Runtime well-formedness checks, for callers that must establish the
// engine's preconditions on data they did not parse themselves.
// ---------------------------------------------------------------------------

fn is_ident_char_exec(c: char) -> (r: bool)
    ensures
        r == is_ident_char(c),
{
    ((c as u32) >= ('0' as u32) && (c as u32) <= ('9' as u32)) || ((c as u32) >= ('a' as u32)
        && (c as u32) <= ('z' as u32)) || ((c as u32) >= ('A' as u32) && (c as u32) <= ('Z'
        as u32)) || c == '-'
}

/// Whether one identifier is well-formed.
fn check_ident(id: &Identifier) -> (r: bool)
    ensures
        r == wf_ident(id@),
{
    match id {
        Identifier::Numeric(_) => true,
        Identifier::AlphaNumeric(s) => {
            let cs: Vec<char> = string_to_chars(s.as_str());
            let n: usize = cs.len();
            if n == 0 {
                return false;
            }
            let mut i: usize = 0;
            let mut all_ident: bool = true;
            let mut digits_only: bool = true;
            while i < n
                invariant
                    n == cs@.len(),
                    cs@ == s@,
                    i <= n,
                    all_ident == (forall|k: int|
                        0 <= k < i ==> is_ident_char(#[trigger] cs@[k])),
                    digits_only == (forall|k: int|
                        0 <= k < i ==> crate::text::is_digit(#[trigger] cs@[k])),
                decreases n - i,
            {
                let c: char = cs[i];
                let ic: bool = is_ident_char_exec(c);
                let dg: bool = (c as u32) >= ('0' as u32) && (c as u32) <= ('9' as u32);
                all_ident = all_ident && ic;
                digits_only = digits_only && dg;
                i = i + 1;
            }
            if !all_ident {
                return false;
            }
            // The run must not be a canonical number.
            let canonical: bool = if digits_only && (cs[0] != '0' || n == 1) {
                match crate::text::parse_dec(&cs, 0, n) {
                    Some(_) => true,
                    None => false,
                }
            } else {
                false
            };
            proof {
                assert(cs@.subrange(0, n as int) =~= s@);
                assert(canonical == canonical_number(s@));
            }
            !canonical
        },
    }
}

/// Whether every identifier of a list is well-formed.
fn check_idents(v: &Vec<Identifier>) -> (r: bool)
    ensures
        r == wf_idents(v@.map_values(|i: Identifier| i@)),
{
    let ghost iv = v@.map_values(|i: Identifier| i@);
    let n: usize = v.len();
    let mut i: usize = 0;
    while i < n
        invariant
            n == v@.len(),
            iv == v@.map_values(|i: Identifier| i@),
            i <= n,
            forall|k: int| 0 <= k < i ==> wf_ident(#[trigger] iv[k]),
        decreases n - i,
    {
        proof {
            assert(iv[i as int] == v@[i as int]@);
        }
        if !check_ident(&v[i]) {
            return false;
        }
        i = i + 1;
    }
    true
}

/// Whether a version is well-formed, exactly as the engine's contracts
/// require.
pub fn is_wf_version(v: &Version) -> (r: bool)
    ensures
        r == wf_version(v@),
{
    check_idents(&v.inner.pre) && check_idents(&v.inner.build)
}

// Executable twin of `text::is_space`.
fn is_space_char(c: char) -> (r: bool)
    ensures
        r == is_space(c),
{
    c == ' ' || c == '\t' || c == '\r' || c == '\n'
}

// ---------------------------------------------------------------------------
// View-preserving copies (a derived `Clone` says nothing to the verifier).
// ---------------------------------------------------------------------------

/// Copies an identifier, preserving its view.
pub fn copy_ident(id: &Identifier) -> (r: Identifier)
    ensures
        r@ == id@,
{
    match id {
        Identifier::Numeric(n) => Identifier::Numeric(*n),
        Identifier::AlphaNumeric(s) => Identifier::AlphaNumeric(s.clone()),
    }
}

/// Copies an identifier vector, preserving its view.
pub fn copy_idents(ids: &Vec<Identifier>) -> (r: Vec<Identifier>)
    ensures
        r@.map_values(|i: Identifier| i@) == ids@.map_values(|i: Identifier| i@),
        r@.len() == ids@.len(),
{
    let n: usize = ids.len();
    let mut r: Vec<Identifier> = Vec::new();
    let mut i: usize = 0;
    while i < n
        invariant
            n == ids@.len(),
            i <= n,
            r@.len() == i as int,
            forall|k: int| 0 <= k < i ==> #[trigger] r@[k]@ == ids@[k]@,
        decreases n - i,
    {
        r.push(copy_ident(&ids[i]));
        i = i + 1;
    }
    proof {
        assert(r@.map_values(|i: Identifier| i@) =~= ids@.map_values(|i: Identifier| i@));
    }
    r
}

/// Copies a version, preserving its view.
pub fn copy_version(v: &Version) -> (r: Version)
    ensures
        r@ == v@,
{
    let r = Version {
        inner: VersionCore {
            major: v.inner.major,
            minor: v.inner.minor,
            patch: v.inner.patch,
            pre: copy_idents(&v.inner.pre),
            build: copy_idents(&v.inner.build),
        },
        v: v.v,
    };
    r
}

} // verus!
