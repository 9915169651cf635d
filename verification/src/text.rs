//! Byte-level text utilities: decimal formatting and parsing, and splitting
//! on a separator byte. These carry the specifications that the frame-store
//! codec and the colour-ramp loader are proved against.

use vstd::prelude::*;

verus! {

/// ASCII decimal digit.
pub open spec fn is_digit(b: u8) -> bool {
    48 <= b && b <= 57
}

/// Non-empty run of ASCII decimal digits.
pub open spec fn is_digits(s: Seq<u8>) -> bool {
    s.len() > 0 && forall|i: int| 0 <= i < s.len() ==> is_digit(#[trigger] s[i])
}

/// Decimal digit string of a non-negative integer, most significant digit
/// first, with no leading zeros (except for zero itself).
pub open spec fn dec_of(n: nat) -> Seq<u8>
    decreases n,
{
    if n < 10 {
        seq![(n + 48) as u8]
    } else {
        dec_of(n / 10).push(((n % 10) + 48) as u8)
    }
}

/// Decimal digit string of an integer, with a leading minus sign when
/// negative.
pub open spec fn dec_of_int(n: int) -> Seq<u8> {
    if n < 0 {
        seq![45u8] + dec_of((-n) as nat)
    } else {
        dec_of(n as nat)
    }
}

/// Numeric value of a digit string (meaningful when `is_digits` holds).
pub open spec fn dec_val(s: Seq<u8>) -> int
    decreases s.len(),
{
    if s.len() == 0 {
        0
    } else {
        dec_val(s.drop_last()) * 10 + s.last() - 48
    }
}

/// Whether `b` occurs in `s`.
pub open spec fn has_byte(s: Seq<u8>, b: u8) -> bool {
    exists|i: int| 0 <= i < s.len() && #[trigger] s[i] == b
}

pub proof fn lemma_dec_of_digits(n: nat)
    ensures
        is_digits(dec_of(n)),
    decreases n,
{
    if n >= 10 {
        lemma_dec_of_digits(n / 10);
    }
}

pub proof fn lemma_dec_of_val(n: nat)
    ensures
        dec_val(dec_of(n)) == n,
    decreases n,
{
    if n < 10 {
        assert(dec_of(n) =~= seq![(n + 48) as u8]);
        assert(dec_of(n).drop_last() =~= Seq::<u8>::empty());
        assert(dec_val(Seq::<u8>::empty()) == 0);
        assert(dec_of(n).last() == (n + 48) as u8);
        assert(((n + 48) as u8) as int == n + 48);
        assert(dec_val(dec_of(n)) == dec_val(Seq::<u8>::empty()) * 10 + (n + 48) - 48);
    } else {
        lemma_dec_of_val(n / 10);
        assert(dec_of(n).drop_last() =~= dec_of(n / 10));
        assert(0 <= n % 10 < 10);
        assert(dec_of(n).last() == ((n % 10) + 48) as u8);
        assert((((n % 10) + 48) as u8) as int == n % 10 + 48);
        vstd::arithmetic::div_mod::lemma_fundamental_div_mod(n as int, 10);
        assert(dec_val(dec_of(n)) == (n / 10) * 10 + (n % 10));
    }
}

pub proof fn lemma_dec_val_nonneg(s: Seq<u8>)
    requires
        forall|i: int| 0 <= i < s.len() ==> is_digit(#[trigger] s[i]),
    ensures
        dec_val(s) >= 0,
    decreases s.len(),
{
    if s.len() > 0 {
        assert(forall|i: int| 0 <= i < s.drop_last().len() ==> is_digit(#[trigger] s.drop_last()[i]));
        lemma_dec_val_nonneg(s.drop_last());
    }
}

/// The value of a digit string is at least the value of any of its prefixes.
pub proof fn lemma_dec_val_prefix(s: Seq<u8>, j: int)
    requires
        forall|i: int| 0 <= i < s.len() ==> is_digit(#[trigger] s[i]),
        0 <= j <= s.len(),
    ensures
        dec_val(s.take(j)) <= dec_val(s),
    decreases s.len() - j,
{
    if j < s.len() {
        lemma_dec_val_prefix(s, j + 1);
        assert(s.take(j + 1).drop_last() =~= s.take(j));
        assert(forall|i: int| 0 <= i < s.take(j).len() ==> is_digit(#[trigger] s.take(j)[i]));
        lemma_dec_val_nonneg(s.take(j));
        assert(dec_val(s.take(j + 1)) == dec_val(s.take(j)) * 10 + s[j] - 48);
    } else {
        assert(s.take(j) =~= s);
    }
}

/// Splitting `s` on `sep`, where `cur` is the part of the current field
/// already consumed.
pub open spec fn split_on_from(s: Seq<u8>, sep: u8, cur: Seq<u8>) -> Seq<Seq<u8>>
    decreases s.len(),
{
    if s.len() == 0 {
        seq![cur]
    } else if s[0] == sep {
        seq![cur] + split_on_from(s.drop_first(), sep, Seq::empty())
    } else {
        split_on_from(s.drop_first(), sep, cur.push(s[0]))
    }
}

/// The fields of `s` split on the separator byte `sep`; always at least one
/// field, and empty fields are kept.
pub open spec fn split_on(s: Seq<u8>, sep: u8) -> Seq<Seq<u8>> {
    split_on_from(s, sep, Seq::empty())
}

pub proof fn lemma_split_on_from_no_sep(f: Seq<u8>, s: Seq<u8>, sep: u8, cur: Seq<u8>)
    requires
        !has_byte(f, sep),
    ensures
        split_on_from(f + s, sep, cur) == split_on_from(s, sep, cur + f),
    decreases f.len(),
{
    if f.len() == 0 {
        assert(f + s =~= s);
        assert(cur + f =~= cur);
    } else {
        assert(f[0] != sep);
        assert((f + s)[0] == f[0]);
        assert((f + s).drop_first() =~= f.drop_first() + s);
        assert(forall|i: int| 0 <= i < f.drop_first().len() ==> #[trigger] f.drop_first()[i] == f[i + 1]);
        lemma_split_on_from_no_sep(f.drop_first(), s, sep, cur.push(f[0]));
        assert(cur.push(f[0]) + f.drop_first() =~= cur + f);
    }
}

pub proof fn lemma_split_on_from_sep(s: Seq<u8>, sep: u8, cur: Seq<u8>)
    ensures
        split_on_from(seq![sep] + s, sep, cur) == seq![cur] + split_on_from(s, sep, Seq::empty()),
{
    assert((seq![sep] + s)[0] == sep);
    assert((seq![sep] + s).drop_first() =~= s);
}

/// Splitting a separator-free field, a separator, and a remainder yields the
/// field and then the split of the remainder.
pub proof fn lemma_split_on_field(f: Seq<u8>, s: Seq<u8>, sep: u8)
    requires
        !has_byte(f, sep),
    ensures
        split_on(f + seq![sep] + s, sep) == seq![f] + split_on(s, sep),
{
    assert(f + seq![sep] + s =~= f + (seq![sep] + s));
    lemma_split_on_from_no_sep(f, seq![sep] + s, sep, Seq::empty());
    assert(Seq::<u8>::empty() + f =~= f);
    lemma_split_on_from_sep(s, sep, f);
}

/// Splitting a separator-free sequence yields that one field.
pub proof fn lemma_split_on_single(f: Seq<u8>, sep: u8)
    requires
        !has_byte(f, sep),
    ensures
        split_on(f, sep) == seq![f],
{
    lemma_split_on_from_no_sep(f, Seq::empty(), sep, Seq::empty());
    assert(f + Seq::<u8>::empty() =~= f);
    assert(Seq::<u8>::empty() + f =~= f);
}

pub proof fn lemma_has_byte_concat(a: Seq<u8>, b: Seq<u8>, x: u8)
    ensures
        has_byte(a + b, x) <==> has_byte(a, x) || has_byte(b, x),
{
    if has_byte(a, x) {
        let i = choose|i: int| 0 <= i < a.len() && #[trigger] a[i] == x;
        assert((a + b)[i] == x);
    }
    if has_byte(b, x) {
        let i = choose|i: int| 0 <= i < b.len() && #[trigger] b[i] == x;
        assert((a + b)[a.len() + i] == x);
    }
    if has_byte(a + b, x) {
        let i = choose|i: int| 0 <= i < (a + b).len() && #[trigger] (a + b)[i] == x;
        if i < a.len() {
            assert(a[i] == x);
        } else {
            assert(b[i - a.len()] == x);
        }
    }
}

proof fn lemma_split_from_append_field(a: Seq<u8>, g: Seq<u8>, sep: u8, cur: Seq<u8>)
    requires
        !has_byte(g, sep),
    ensures
        split_on_from(a + seq![sep] + g, sep, cur) == split_on_from(a, sep, cur) + seq![g],
    decreases a.len(),
{
    if a.len() == 0 {
        assert(a + seq![sep] + g =~= seq![sep] + g);
        lemma_split_on_from_sep(g, sep, cur);
        lemma_split_on_from_no_sep(g, Seq::empty(), sep, Seq::empty());
        assert(g + Seq::<u8>::empty() =~= g);
        assert(Seq::<u8>::empty() + g =~= g);
        assert(split_on_from(a + seq![sep] + g, sep, cur) =~~= split_on_from(a, sep, cur)
            + seq![g]);
    } else if a[0] == sep {
        assert((a + seq![sep] + g)[0] == sep);
        assert((a + seq![sep] + g).drop_first() =~= a.drop_first() + seq![sep] + g);
        lemma_split_from_append_field(a.drop_first(), g, sep, Seq::empty());
        assert(split_on_from(a + seq![sep] + g, sep, cur) =~~= split_on_from(a, sep, cur)
            + seq![g]);
    } else {
        assert((a + seq![sep] + g)[0] == a[0]);
        assert((a + seq![sep] + g).drop_first() =~= a.drop_first() + seq![sep] + g);
        lemma_split_from_append_field(a.drop_first(), g, sep, cur.push(a[0]));
        assert(split_on_from(a + seq![sep] + g, sep, cur) =~~= split_on_from(a, sep, cur)
            + seq![g]);
    }
}

/// Appending a separator and then a separator-free field to any text adds
/// exactly that one field to its split.
pub proof fn lemma_split_append_field(a: Seq<u8>, g: Seq<u8>, sep: u8)
    requires
        !has_byte(g, sep),
    ensures
        split_on(a + seq![sep] + g, sep) == split_on(a, sep) + seq![g],
{
    lemma_split_from_append_field(a, g, sep, Seq::empty());
}

/// A digit string contains neither a comma nor a newline.
pub proof fn lemma_digits_no_byte(s: Seq<u8>, b: u8)
    requires
        forall|i: int| 0 <= i < s.len() ==> is_digit(#[trigger] s[i]),
        b < 48 || b > 57,
    ensures
        !has_byte(s, b),
{
}

/// The lines of a byte text: fields split on the newline byte, except that a
/// trailing newline does not open one last empty line.
pub open spec fn lines_of(s: Seq<u8>) -> Seq<Seq<u8>> {
    let fs = split_on(s, 10);
    if fs.len() > 0 && fs.last().len() == 0 {
        fs.drop_last()
    } else {
        fs
    }
}

/// The views of a sequence of byte vectors.
pub open spec fn views_of(v: Seq<Vec<u8>>) -> Seq<Seq<u8>> {
    v.map_values(|x: Vec<u8>| x@)
}

/// Splits `s` into its fields on the separator byte `sep`.
pub fn split_on_byte(s: &[u8], sep: u8) -> (r: Vec<Vec<u8>>)
    ensures
        views_of(r@) == split_on(s@, sep),
        r@.len() > 0,
{
    let mut out: Vec<Vec<u8>> = Vec::new();
    let mut cur: Vec<u8> = Vec::new();
    let mut i: usize = 0;
    proof {
        assert(s@.skip(0) =~= s@);
        assert(views_of(out@) =~= Seq::<Seq<u8>>::empty());
        assert(views_of(out@) + split_on_from(s@.skip(0), sep, cur@) =~~= split_on(s@, sep));
    }
    while i < s.len()
        invariant
            i <= s@.len(),
            views_of(out@) + split_on_from(s@.skip(i as int), sep, cur@) =~~= split_on(s@, sep),
        decreases s@.len() - i,
    {
        proof {
            assert(s@.skip(i as int)[0] == s@[i as int]);
            assert(s@.skip(i as int).drop_first() =~= s@.skip(i as int + 1));
        }
        if s[i] == sep {
            let ghost old_out = out@;
            let ghost old_cur = cur@;
            out.push(cur);
            cur = Vec::new();
            proof {
                assert(views_of(out@) =~= views_of(old_out).push(old_cur));
                assert(split_on_from(s@.skip(i as int), sep, old_cur) == seq![old_cur]
                    + split_on_from(s@.skip(i as int + 1), sep, Seq::empty()));
                assert(views_of(out@) + split_on_from(s@.skip(i as int + 1), sep, cur@)
                    =~~= views_of(old_out) + split_on_from(s@.skip(i as int), sep, old_cur));
            }
        } else {
            let b = s[i];
            cur.push(b);
        }
        i += 1;
    }
    proof {
        assert(s@.skip(i as int) =~= Seq::<u8>::empty());
    }
    let ghost old_out = out@;
    let ghost old_cur = cur@;
    out.push(cur);
    proof {
        assert(views_of(out@) =~= views_of(old_out).push(old_cur));
        assert(views_of(old_out).push(old_cur) =~~= views_of(old_out) + seq![old_cur]);
    }
    out
}

/// Splits a byte text into its lines.
pub fn split_lines(s: &[u8]) -> (r: Vec<Vec<u8>>)
    ensures
        views_of(r@) == lines_of(s@),
{
    let mut fs = split_on_byte(s, 10);
    proof {
        assert(views_of(fs@).len() == fs@.len());
        assert(views_of(fs@).last() == fs@[fs@.len() - 1]@);
    }
    let last_len = fs[fs.len() - 1].len();
    if last_len == 0 {
        let ghost pre = fs@;
        fs.pop();
        proof {
            assert(fs@ =~= pre.drop_last());
            assert(views_of(fs@) =~~= views_of(pre).drop_last());
        }
    }
    fs
}

/// Parses a whole byte slice as an unsigned decimal number fitting in `u32`.
/// Fails on an empty slice, any non-digit byte, or a value above `u32::MAX`.
pub fn parse_u32(f: &[u8]) -> (r: Option<u32>)
    ensures
        r == (if is_digits(f@) && dec_val(f@) <= u32::MAX {
            Some(dec_val(f@) as u32)
        } else {
            None::<u32>
        }),
{
    if f.len() == 0 {
        return None;
    }
    let mut acc: u64 = 0;
    let mut i: usize = 0;
    while i < f.len()
        invariant
            i <= f@.len(),
            f@.len() > 0,
            forall|k: int| 0 <= k < i ==> is_digit(#[trigger] f@[k]),
            acc <= u32::MAX,
            acc as int == dec_val(f@.take(i as int)),
        decreases f@.len() - i,
    {
        let b = f[i];
        if b < 48 || b > 57 {
            return None;
        }
        let d = (b - 48) as u64;
        let acc2 = acc * 10 + d;
        proof {
            assert(f@.take(i as int + 1).drop_last() =~= f@.take(i as int));
            assert(dec_val(f@.take(i as int + 1)) == acc * 10 + b - 48);
        }
        if acc2 > u32::MAX as u64 {
            proof {
                if is_digits(f@) && dec_val(f@) <= u32::MAX {
                    lemma_dec_val_prefix(f@, i as int + 1);
                    assert(false);
                }
            }
            return None;
        }
        acc = acc2;
        i += 1;
    }
    proof {
        assert(f@.take(i as int) =~= f@);
    }
    Some(acc as u32)
}

/// Parses a whole byte slice as an unsigned decimal number fitting in `u16`.
pub fn parse_u16(f: &[u8]) -> (r: Option<u16>)
    ensures
        r == (if is_digits(f@) && dec_val(f@) <= u16::MAX {
            Some(dec_val(f@) as u16)
        } else {
            None::<u16>
        }),
{
    match parse_u32(f) {
        None => None,
        Some(v) => {
            proof {
                if is_digits(f@) {
                    lemma_dec_val_nonneg(f@);
                }
            }
            if v <= 65535 {
                Some(v as u16)
            } else {
                None
            }
        },
    }
}

/// Parses a whole byte slice as an unsigned decimal number fitting in `u8`.
pub fn parse_u8(f: &[u8]) -> (r: Option<u8>)
    ensures
        r == (if is_digits(f@) && dec_val(f@) <= u8::MAX {
            Some(dec_val(f@) as u8)
        } else {
            None::<u8>
        }),
{
    match parse_u32(f) {
        None => None,
        Some(v) => {
            proof {
                if is_digits(f@) {
                    lemma_dec_val_nonneg(f@);
                }
            }
            if v <= 255 {
                Some(v as u8)
            } else {
                None
            }
        },
    }
}

/// Appends the decimal digits of `n` to `out`.
pub fn push_dec(out: &mut Vec<u8>, n: u64)
    ensures
        final(out)@ == old(out)@ + dec_of(n as nat),
    decreases n,
{
    if n < 10 {
        out.push((n as u8) + 48);
        assert(out@ =~= old(out)@ + dec_of(n as nat));
    } else {
        proof {
            vstd::arithmetic::div_mod::lemma_div_decreases(n as int, 10);
        }
        push_dec(out, n / 10);
        out.push(((n % 10) as u8) + 48);
        assert(out@ =~= old(out)@ + dec_of(n as nat));
    }
}

/// Appends the decimal digits of `n`, with a leading minus sign when
/// negative, to `out`.
pub fn push_dec_i64(out: &mut Vec<u8>, n: i64)
    requires
        n > i64::MIN,
    ensures
        final(out)@ == old(out)@ + dec_of_int(n as int),
{
    if n < 0 {
        out.push(45);
        push_dec(out, (-n) as u64);
        assert(out@ =~= old(out)@ + dec_of_int(n as int));
    } else {
        push_dec(out, n as u64);
    }
}

} // verus!
