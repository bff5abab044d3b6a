use vstd::prelude::*;

verus! {

// Character classes used by the version grammar and the shard-file codec.

pub open spec fn is_space(c: char) -> bool {
    c == ' ' || c == '\t' || c == '\r' || c == '\n'
}

pub open spec fn is_digit(c: char) -> bool {
    ('0' as u32) <= (c as u32) && (c as u32) <= ('9' as u32)
}

pub open spec fn digit_of(c: char) -> int {
    (c as u32) - ('0' as u32)
}

pub open spec fn is_letter(c: char) -> bool {
    (('a' as u32) <= (c as u32) && (c as u32) <= ('z' as u32)) || (('A' as u32) <= (c as u32)
        && (c as u32) <= ('Z' as u32))
}

/// The characters a semantic-version pre-release or build identifier may hold.
pub open spec fn is_ident_char(c: char) -> bool {
    is_digit(c) || is_letter(c) || c == '-'
}

pub open spec fn all_digits(s: Seq<char>) -> bool {
    forall|i: int| 0 <= i < s.len() ==> is_digit(#[trigger] s[i])
}

/// The numeric value of a sequence of decimal digit characters.
pub open spec fn digits_val(s: Seq<char>) -> int
    decreases s.len(),
{
    if s.len() == 0 {
        0
    } else {
        digits_val(s.drop_last()) * 10 + digit_of(s.last())
    }
}

pub open spec fn digit_char(d: int) -> char {
    if d == 0 {
        '0'
    } else if d == 1 {
        '1'
    } else if d == 2 {
        '2'
    } else if d == 3 {
        '3'
    } else if d == 4 {
        '4'
    } else if d == 5 {
        '5'
    } else if d == 6 {
        '6'
    } else if d == 7 {
        '7'
    } else if d == 8 {
        '8'
    } else {
        '9'
    }
}

/// The canonical decimal rendering of a non-negative integer: no sign,
/// no leading zeros (a lone `0` for zero).
pub open spec fn dec_rep(n: int) -> Seq<char>
    decreases n,
{
    if n < 10 {
        seq![digit_char(if 0 <= n { n } else { 0 })]
    } else {
        dec_rep(n / 10).push(digit_char(n % 10))
    }
}

proof fn lemma_digit_char_val(d: int)
    requires
        0 <= d <= 9,
    ensures
        is_digit(digit_char(d)),
        digit_of(digit_char(d)) == d,
{
}

pub proof fn lemma_dec_rep_digits(n: int)
    requires
        0 <= n,
    ensures
        dec_rep(n).len() > 0,
        all_digits(dec_rep(n)),
        digits_val(dec_rep(n)) == n,
        n > 0 ==> dec_rep(n)[0] != '0',
        n == 0 ==> dec_rep(n) == seq!['0'],
    decreases n,
{
    if n < 10 {
        lemma_digit_char_val(n);
        assert(dec_rep(n) == seq![digit_char(n)]);
        assert(dec_rep(n).drop_last() =~= Seq::<char>::empty());
        assert(dec_rep(n).last() == digit_char(n));
        assert(digits_val(dec_rep(n)) == digits_val(dec_rep(n).drop_last()) * 10 + digit_of(
            dec_rep(n).last(),
        ));
        assert(digits_val(dec_rep(n).drop_last()) == 0);
        assert(n == 0 ==> dec_rep(n) =~= seq!['0']);
    } else {
        lemma_dec_rep_digits(n / 10);
        lemma_digit_char_val(n % 10);
        assert(dec_rep(n).drop_last() =~= dec_rep(n / 10));
        assert(dec_rep(n).last() == digit_char(n % 10));
        assert(dec_rep(n)[0] == dec_rep(n / 10)[0]);
        assert(digits_val(dec_rep(n)) == digits_val(dec_rep(n / 10)) * 10 + digit_of(
            digit_char(n % 10),
        ));
        assert(n / 10 * 10 + n % 10 == n) by (nonlinear_arith);
    }
}

/// Converts a string to the vector of its characters; the basis for all
/// character-level processing in this crate.
pub fn string_to_chars(s: &str) -> (r: Vec<char>)
    ensures
        r@ == s@,
{
    let n: usize = s.unicode_len();
    let mut r: Vec<char> = Vec::new();
    let mut i: usize = 0;
    while i < n
        invariant
            n == s@.len(),
            i <= n,
            r@ == s@.subrange(0, i as int),
        decreases n - i,
    {
        let c: char = s.get_char(i);
        r.push(c);
        i = i + 1;
        assert(r@ =~= s@.subrange(0, i as int));
    }
    assert(r@ =~= s@);
    r
}

/// Relies on `String: FromIterator<char>` of std: collecting an iterator of
/// characters yields the string of exactly those characters, in order.
#[verifier::external_body]
pub fn chars_to_string(v: &Vec<char>) -> (r: String)
    ensures
        r@ == v@,
{
    v.iter().collect()
}

/// The string of a character range.
pub fn chars_substring(cs: &Vec<char>, from: usize, to: usize) -> (r: String)
    requires
        from <= to <= cs@.len(),
    ensures
        r@ == cs@.subrange(from as int, to as int),
{
    let mut out: Vec<char> = Vec::new();
    let mut i: usize = from;
    proof {
        assert(cs@.subrange(from as int, from as int) =~= Seq::<char>::empty());
    }
    while i < to
        invariant
            from <= i <= to <= cs@.len(),
            out@ == cs@.subrange(from as int, i as int),
        decreases to - i,
    {
        out.push(cs[i]);
        i = i + 1;
        assert(out@ =~= cs@.subrange(from as int, i as int));
    }
    chars_to_string(&out)
}

/// The character for a single decimal digit.
pub fn digit_to_char(d: u64) -> (c: char)
    requires
        d <= 9,
    ensures
        c == digit_char(d as int),
{
    if d == 0 {
        '0'
    } else if d == 1 {
        '1'
    } else if d == 2 {
        '2'
    } else if d == 3 {
        '3'
    } else if d == 4 {
        '4'
    } else if d == 5 {
        '5'
    } else if d == 6 {
        '6'
    } else if d == 7 {
        '7'
    } else if d == 8 {
        '8'
    } else {
        '9'
    }
}

/// A digit character is the rendering of its own value.
pub proof fn lemma_digit_char_of(c: char)
    requires
        is_digit(c),
    ensures
        0 <= digit_of(c) <= 9,
        digit_char(digit_of(c)) == c,
{
    vstd::utf8::char_u32_cast(c, c as u32);
    vstd::utf8::char_u32_cast(digit_char(digit_of(c)), digit_char(digit_of(c)) as u32);
}

pub proof fn lemma_digits_val_nonneg(s: Seq<char>)
    requires
        all_digits(s),
    ensures
        digits_val(s) >= 0,
    decreases s.len(),
{
    if s.len() > 0 {
        assert(all_digits(s.drop_last())) by {
            assert(forall|i: int|
                0 <= i < s.len() - 1 ==> #[trigger] s.drop_last()[i] == s[i]);
        }
        lemma_digits_val_nonneg(s.drop_last());
    }
}

/// A digit string with a non-zero leading digit has a positive value.
pub proof fn lemma_digits_val_pos(s: Seq<char>)
    requires
        all_digits(s),
        s.len() > 0,
        s[0] != '0',
    ensures
        digits_val(s) >= 1,
    decreases s.len(),
{
    assert(all_digits(s.drop_last())) by {
        assert(forall|i: int| 0 <= i < s.len() - 1 ==> #[trigger] s.drop_last()[i] == s[i]);
    }
    assert(s.drop_last().len() == s.len() - 1);
    if s.len() == 1 {
        assert(s.drop_last() =~= Seq::<char>::empty());
        assert(digits_val(s.drop_last()) == 0);
        assert(s.last() == s[0]);
        vstd::utf8::char_u32_cast(s[0], s[0] as u32);
        vstd::utf8::char_u32_cast('0', '0' as u32);
        assert(digit_of(s.last()) >= 1);
    } else {
        assert(s.drop_last()[0] == s[0]);
        lemma_digits_val_pos(s.drop_last());
        assert(digit_of(s.last()) >= 0);
    }
}

/// A canonical digit string is the rendering of its own value: `dec_rep`
/// inverts `digits_val` on strings without a spurious leading zero.
pub proof fn lemma_canonical_dec_rep(s: Seq<char>)
    requires
        all_digits(s),
        s.len() > 0,
        s[0] != '0' || s.len() == 1,
    ensures
        digits_val(s) >= 0,
        dec_rep(digits_val(s)) == s,
    decreases s.len(),
{
    lemma_digits_val_nonneg(s);
    let v = digits_val(s);
    if s.len() == 1 {
        assert(s.drop_last() =~= Seq::<char>::empty());
        assert(digits_val(s.drop_last()) == 0);
        assert(s.last() == s[0]);
        assert(v == digit_of(s[0]));
        lemma_digit_char_of(s[0]);
        assert(dec_rep(v) == seq![digit_char(v)]);
        assert(dec_rep(v) =~= s);
    } else {
        let p = s.drop_last();
        let c = s.last();
        assert(all_digits(p)) by {
            assert(forall|i: int| 0 <= i < s.len() - 1 ==> #[trigger] p[i] == s[i]);
        }
        assert(p[0] == s[0]);
        lemma_canonical_dec_rep(p);
        lemma_digits_val_pos(p);
        let vp = digits_val(p);
        let d = digit_of(c);
        lemma_digit_char_of(c);
        assert(v == vp * 10 + d);
        assert(v >= 10) by (nonlinear_arith)
            requires
                v == vp * 10 + d,
                vp >= 1,
                d >= 0,
        ;
        assert(v / 10 == vp && v % 10 == d) by (nonlinear_arith)
            requires
                v == vp * 10 + d,
                0 <= d <= 9,
                vp >= 0,
        ;
        assert(dec_rep(v) == dec_rep(vp).push(digit_char(d)));
        assert(dec_rep(v) =~= s);
    }
}

/// Parses a non-empty all-digit character range as a `u64`; `None` when the
/// value does not fit.
pub fn parse_dec(s: &Vec<char>, from: usize, to: usize) -> (r: Option<u64>)
    requires
        from <= to <= s@.len(),
        all_digits(s@.subrange(from as int, to as int)),
    ensures
        digits_val(s@.subrange(from as int, to as int)) <= u64::MAX ==> r == Some(
            digits_val(s@.subrange(from as int, to as int)) as u64,
        ),
        digits_val(s@.subrange(from as int, to as int)) > u64::MAX ==> r is None,
{
    let ghost whole = s@.subrange(from as int, to as int);
    let mut acc: u64 = 0;
    let mut i: usize = from;
    proof {
        assert(s@.subrange(from as int, from as int) =~= Seq::<char>::empty());
    }
    while i < to
        invariant
            from <= i <= to <= s@.len(),
            whole == s@.subrange(from as int, to as int),
            all_digits(whole),
            acc as int == digits_val(s@.subrange(from as int, i as int)),
        decreases to - i,
    {
        let ghost pre = s@.subrange(from as int, i as int);
        let c: char = s[i];
        proof {
            assert(whole[i - from] == s@[i as int]);
            assert(is_digit(c));
        }
        let d: u32 = (c as u32) - ('0' as u32);
        proof {
            assert(d == digit_of(c));
            assert(s@.subrange(from as int, i + 1).drop_last() =~= pre);
            assert(s@.subrange(from as int, i + 1).last() == c);
        }
        if acc > (u64::MAX - (d as u64)) / 10 {
            // The value read so far already overflows; any continuation only grows it.
            proof {
                assert(digits_val(s@.subrange(from as int, i + 1)) == acc * 10 + d);
                assert(acc * 10 + d > u64::MAX);
                lemma_digits_val_grows(s@, from as int, i + 1, to as int);
                lemma_digits_val_nonneg(whole);
            }
            return None;
        }
        acc = acc * 10 + (d as u64);
        i = i + 1;
    }
    proof {
        assert(s@.subrange(from as int, to as int) =~= whole);
    }
    Some(acc)
}

/// The value of a digit string only grows as more digits are appended.
proof fn lemma_digits_val_grows(s: Seq<char>, from: int, mid: int, to: int)
    requires
        0 <= from <= mid <= to <= s.len(),
        all_digits(s.subrange(from, to)),
        all_digits(s.subrange(from, mid)),
    ensures
        digits_val(s.subrange(from, to)) >= digits_val(s.subrange(from, mid)),
    decreases to - mid,
{
    if mid < to {
        assert(all_digits(s.subrange(from, mid + 1))) by {
            assert(forall|i: int|
                0 <= i < mid + 1 - from ==> #[trigger] s.subrange(from, mid + 1)[i] == s.subrange(
                    from,
                    to,
                )[i]);
        }
        assert(s.subrange(from, mid + 1).drop_last() =~= s.subrange(from, mid));
        assert(is_digit(s.subrange(from, mid + 1).last())) by {
            assert(s.subrange(from, mid + 1).last() == s.subrange(from, to)[mid - from]);
        }
        lemma_digits_val_nonneg(s.subrange(from, mid));
        assert(digits_val(s.subrange(from, mid + 1)) >= digits_val(s.subrange(from, mid)));
        lemma_digits_val_grows(s, from, mid + 1, to);
    }
}

/// Appends the canonical decimal rendering of `n` to `out`.
pub fn push_dec(n: u64, out: &mut Vec<char>)
    ensures
        final(out)@ == old(out)@ + dec_rep(n as int),
    decreases n,
{
    if n < 10 {
        let c: char = digit_to_char(n);
        out.push(c);
        assert(out@ =~= old(out)@ + dec_rep(n as int));
    } else {
        push_dec(n / 10, out);
        let c: char = digit_to_char(n % 10);
        out.push(c);
        assert(out@ =~= old(out)@ + dec_rep(n as int));
    }
}

} // verus!
