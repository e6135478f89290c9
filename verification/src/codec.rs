//! The stored form of the aggregate.
//!
//! The aggregate is persisted as a flat run of unsigned numbers, each
//! written as exactly twenty decimal digits, with no separators: first the
//! speed, the accuracy and the number of per-letter records; then, for each
//! record, its letter's code point, its press total and its entry count,
//! followed by that many `(code point, count)` entries.  Fixed-width
//! numbers make the format self-describing and give it an exact inverse:
//! decoding what was encoded reproduces the aggregate, and anything
//! malformed decodes to nothing.

use vstd::arithmetic::div_mod::lemma_div_is_ordered;
use vstd::arithmetic::div_mod::lemma_fundamental_div_mod;
use vstd::arithmetic::div_mod::lemma_fundamental_div_mod_converse;
use vstd::arithmetic::div_mod::lemma_mod_bound;
use vstd::prelude::*;

use crate::results::JSONLetterInfo;
use crate::results::JSONLetterInfoV;
use crate::results::JSONResults;
use crate::results::JSONResultsV;

verus! {

// ---------------------------------------------------------------------------
// Twenty-digit numbers.
// ---------------------------------------------------------------------------
/// Width of every number in the stored form, in digits.
pub const NUM_WIDTH: usize = 20;


pub open spec fn pow10(e: nat) -> int
    decreases e,
{
    if e == 0 {
        1
    } else {
        10 * pow10((e - 1) as nat)
    }
}

/// Every u64 fits in twenty digits.
pub proof fn lemma_pow10_20()
    ensures
        pow10(20) == 0x56bc75e2d63100000,
        u64::MAX < pow10(20),
{
    reveal_with_fuel(pow10, 21);
}

/// Powers of ten do not shrink.
pub proof fn lemma_pow10_le(a: nat, b: nat)
    requires
        a <= b,
    ensures
        1 <= pow10(a) <= pow10(b),
    decreases b,
{
    if b > 0 {
        if a == b {
            lemma_pow10_le((b - 1) as nat, (b - 1) as nat);
        } else {
            lemma_pow10_le(a, (b - 1) as nat);
        }
    }
}

/// The bytes are ASCII digits.
pub open spec fn digits_ok(s: Seq<u8>) -> bool {
    forall|k: int| 0 <= k < s.len() ==> 48 <= #[trigger] s[k] <= 57
}

/// The number the digits spell, most significant digit first.
pub open spec fn dec_val(s: Seq<u8>) -> int
    decreases s.len(),
{
    if s.len() == 0 {
        0
    } else {
        dec_val(s.drop_last()) * 10 + (s.last() - 48)
    }
}

/// `n` written in `width` decimal digits, most significant first.
pub open spec fn enc_num(n: int, width: nat) -> Seq<u8>
    decreases width,
{
    if width == 0 {
        Seq::empty()
    } else {
        enc_num(n / 10, (width - 1) as nat).push((48 + n % 10) as u8)
    }
}

/// Writing and reading back a number in enough digits is the identity.
pub proof fn lemma_enc_num(n: int, width: nat)
    requires
        0 <= n < pow10(width),
    ensures
        enc_num(n, width).len() == width,
        digits_ok(enc_num(n, width)),
        dec_val(enc_num(n, width)) == n,
    decreases width,
{
    if width > 0 {
        lemma_mod_bound(n, 10);
        lemma_fundamental_div_mod(n, 10);
        assert(n / 10 < pow10((width - 1) as nat)) by {
            lemma_div_is_ordered(n, 10 * pow10((width - 1) as nat) - 1, 10);
            lemma_fundamental_div_mod_converse(
                10 * pow10((width - 1) as nat) - 1,
                10,
                pow10((width - 1) as nat) - 1,
                9,
            );
        }
        lemma_enc_num(n / 10, (width - 1) as nat);
        let e = enc_num(n, width);
        assert(e.drop_last() =~= enc_num(n / 10, (width - 1) as nat));
        assert(e.last() == (48 + n % 10) as u8);
    }
}

/// The twenty bytes at `off`.
pub open spec fn chunk_at(s: Seq<u8>, off: int) -> Seq<u8> {
    s.subrange(off, off + 20)
}

/// A readable number sits at `off`: room for it, all digits, and a value
/// that fits the machine word.
pub open spec fn num_ok(s: Seq<u8>, off: int) -> bool {
    0 <= off && off + 20 <= s.len() && digits_ok(chunk_at(s, off)) && dec_val(chunk_at(s, off))
        <= u64::MAX
}

/// The number read at `off`.
pub open spec fn num_at(s: Seq<u8>, off: int) -> int {
    dec_val(chunk_at(s, off))
}

/// Append `n`, written in twenty digits.
pub fn push_num(out: &mut Vec<u8>, n: u64)
    ensures
        final(out)@ == old(out)@ + enc_num(n as int, 20),
{
    proof {
        lemma_pow10_20();
        lemma_enc_num(n as int, 20);
    }
    push_num_rec(out, n, NUM_WIDTH);
}

fn push_num_rec(out: &mut Vec<u8>, n: u64, width: usize)
    ensures
        final(out)@ == old(out)@ + enc_num(n as int, width as nat),
    decreases width,
{
    if width == 0 {
        proof {
            assert(out@ =~= old(out)@ + enc_num(n as int, 0));
        }
    } else {
        push_num_rec(out, n / 10, width - 1);
        out.push(48 + (n % 10) as u8);
        proof {
            assert(out@ =~= old(out)@ + enc_num(n as int, width as nat));
        }
    }
}

/// Read the twenty-digit number at `off`; nothing if it does not fit, is
/// not all digits, or overflows the machine word.
pub fn read_num(s: &Vec<u8>, off: usize) -> (r: Option<u64>)
    ensures
        match r {
            Some(v) => num_ok(s@, off as int) && v == num_at(s@, off as int),
            None => !num_ok(s@, off as int),
        },
{
    if off > s.len() || s.len() - off < 20 {
        return None;
    }
    let ghost c = chunk_at(s@, off as int);
    let mut acc: u128 = 0;
    let mut i: usize = 0;
    proof {
        assert(c.take(0) =~= Seq::<u8>::empty());
        lemma_pow10_20();
    }
    while i < 20
        invariant
            i <= 20,
            off + 20 <= s.len(),
            c == chunk_at(s@, off as int),
            forall|k: int| 0 <= k < i ==> 48 <= #[trigger] c[k] <= 57,
            acc == dec_val(c.take(i as int)),
            0 <= acc < pow10(i as nat),
            pow10(20) == 0x56bc75e2d63100000,
        decreases 20 - i,
    {
        let b = s[off + i];
        proof {
            assert(c[i as int] == s@[off + i as int]);
        }
        if b < 48 || b > 57 {
            return None;
        }
        proof {
            assert(c.take(i as int + 1).drop_last() =~= c.take(i as int));
            assert(c.take(i as int + 1).last() == c[i as int]);
            assert(pow10(i as nat + 1) == 10 * pow10(i as nat));
            lemma_pow10_le(i as nat, 19);
            assert(pow10(20) == 10 * pow10(19));
        }
        acc = acc * 10 + ((b - 48) as u128);
        i = i + 1;
    }
    proof {
        assert(c.take(20) =~= c);
    }
    if acc > 0xffffffffffffffff {
        proof {
            assert(!(dec_val(c) <= u64::MAX));
        }
        None
    } else {
        Some(acc as u64)
    }
}

// ---------------------------------------------------------------------------
// The document, as a specification.
// ---------------------------------------------------------------------------
/// One confusion-distribution entry: code point, then count.
pub open spec fn enc_pair(p: (char, u64)) -> Seq<u8> {
    enc_num(p.0 as int, 20) + enc_num(p.1 as int, 20)
}

/// A whole confusion distribution, entry by entry.
pub open spec fn enc_dist(d: Seq<(char, u64)>) -> Seq<u8>
    decreases d.len(),
{
    if d.len() == 0 {
        Seq::empty()
    } else {
        enc_pair(d[0]) + enc_dist(d.drop_first())
    }
}

/// One per-letter record: code point, press total, entry count, entries.
pub open spec fn enc_letter(e: JSONLetterInfoV) -> Seq<u8> {
    enc_num(e.main as int, 20) + enc_num(e.presses as int, 20) + enc_num(e.dist.len() as int, 20)
        + enc_dist(e.dist)
}

/// All per-letter records, in order.
pub open spec fn enc_letters(ls: Seq<JSONLetterInfoV>) -> Seq<u8>
    decreases ls.len(),
{
    if ls.len() == 0 {
        Seq::empty()
    } else {
        enc_letter(ls[0]) + enc_letters(ls.drop_first())
    }
}

/// The stored form of a whole result document.
pub open spec fn enc_results(r: JSONResultsV) -> Seq<u8> {
    enc_num(r.wpm_milli as int, 20) + enc_num(r.acc_tenths as int, 20) + enc_num(
        r.letters.len() as int,
        20,
    ) + enc_letters(r.letters)
}

/// The numbers that may stand for a character.
pub open spec fn valid_code(v: int) -> bool {
    (0 <= v < 0xD800) || (0xE000 <= v <= 0x10FFFF)
}

/// Read `cnt` distribution entries starting at `off`, in front of what was
/// already read.
pub open spec fn parse_dist(s: Seq<u8>, off: int, cnt: int, acc: Seq<(char, u64)>) -> Option<
    (Seq<(char, u64)>, int),
>
    decreases cnt,
{
    if cnt <= 0 {
        Some((acc, off))
    } else if !num_ok(s, off) || !num_ok(s, off + 20) || !valid_code(num_at(s, off)) {
        None
    } else {
        parse_dist(
            s,
            off + 40,
            cnt - 1,
            acc.push((num_at(s, off) as char, num_at(s, off + 20) as u64)),
        )
    }
}

/// Read `cnt` per-letter records starting at `off`.
pub open spec fn parse_letters(
    s: Seq<u8>,
    off: int,
    cnt: int,
    acc: Seq<JSONLetterInfoV>,
) -> Option<(Seq<JSONLetterInfoV>, int)>
    decreases cnt,
{
    if cnt <= 0 {
        Some((acc, off))
    } else if !num_ok(s, off) || !num_ok(s, off + 20) || !num_ok(s, off + 40) || !valid_code(
        num_at(s, off),
    ) {
        None
    } else {
        match parse_dist(s, off + 60, num_at(s, off + 40), Seq::empty()) {
            None => None,
            Some((d, o2)) => parse_letters(
                s,
                o2,
                cnt - 1,
                acc.push(
                    JSONLetterInfoV {
                        main: num_at(s, off) as char,
                        presses: num_at(s, off + 20) as u64,
                        dist: d,
                    },
                ),
            ),
        }
    }
}

/// Read a whole document; the bytes must hold exactly one.
pub open spec fn parse_results(s: Seq<u8>) -> Option<JSONResultsV> {
    if !num_ok(s, 0) || !num_ok(s, 20) || !num_ok(s, 40) {
        None
    } else {
        match parse_letters(s, 60, num_at(s, 40), Seq::empty()) {
            None => None,
            Some((ls, o)) => if o == s.len() {
                Some(
                    JSONResultsV {
                        wpm_milli: num_at(s, 0) as u64,
                        acc_tenths: num_at(s, 20) as u64,
                        letters: ls,
                    },
                )
            } else {
                None
            },
        }
    }
}

/// What reading the stored form yields: a well-formed document, or
/// nothing.
pub open spec fn dec_results(s: Seq<u8>) -> Option<JSONResultsV> {
    match parse_results(s) {
        Some(r) => if r.wf() {
            Some(r)
        } else {
            None
        },
        None => None,
    }
}

// ---------------------------------------------------------------------------
// The round trip.
// ---------------------------------------------------------------------------
/// Every character of the distribution is a scalar value.  True of any
/// distribution an executable value can hold; spelled out because ghost
/// sequences are not constrained by the character type by themselves.
pub open spec fn dist_codes_valid(d: Seq<(char, u64)>) -> bool {
    forall|k: int| 0 <= k < d.len() ==> valid_code((#[trigger] d[k]).0 as int)
}

/// Every character of every record is a scalar value.
pub open spec fn letters_codes_valid(ls: Seq<JSONLetterInfoV>) -> bool {
    forall|j: int|
        0 <= j < ls.len() ==> valid_code((#[trigger] ls[j]).main as int) && dist_codes_valid(
            ls[j].dist,
        )
}

pub proof fn lemma_enc_num_len(n: int, width: nat)
    ensures
        enc_num(n, width).len() == width,
    decreases width,
{
    if width > 0 {
        lemma_enc_num_len(n / 10, (width - 1) as nat);
    }
}

pub proof fn lemma_enc_dist_len(d: Seq<(char, u64)>)
    ensures
        enc_dist(d).len() == 40 * d.len(),
    decreases d.len(),
{
    if d.len() > 0 {
        lemma_enc_num_len(d[0].0 as int, 20);
        lemma_enc_num_len(d[0].1 as int, 20);
        lemma_enc_dist_len(d.drop_first());
    }
}

/// A window of a window of `s` is the inner window of the copied bytes.
pub proof fn lemma_sub_of_sub(s: Seq<u8>, off: int, total: int, enc: Seq<u8>, a: int, b: int)
    requires
        0 <= off,
        off + total <= s.len(),
        enc.len() == total,
        s.subrange(off, off + total) == enc,
        0 <= a <= b <= total,
    ensures
        s.subrange(off + a, off + b) == enc.subrange(a, b),
{
    assert forall|k: int| 0 <= k < b - a implies s.subrange(off + a, off + b)[k] == enc.subrange(
        a,
        b,
    )[k] by {
        assert(s.subrange(off, off + total)[a + k] == s[off + (a + k)]);
        assert(s.subrange(off + a, off + b)[k] == s[off + a + k]);
        assert(enc.subrange(a, b)[k] == enc[a + k]);
    }
    assert(s.subrange(off + a, off + b) =~= enc.subrange(a, b));
}

/// Reading an encoded distribution back gives the distribution.
pub proof fn lemma_parse_enc_dist(
    s: Seq<u8>,
    off: int,
    d: Seq<(char, u64)>,
    acc: Seq<(char, u64)>,
)
    requires
        0 <= off,
        off + 40 * d.len() <= s.len(),
        s.subrange(off, off + 40 * d.len()) == enc_dist(d),
        dist_codes_valid(d),
    ensures
        parse_dist(s, off, d.len() as int, acc) == Some((acc + d, off + 40 * d.len())),
    decreases d.len(),
{
    lemma_pow10_20();
    if d.len() == 0 {
        assert(acc + d =~= acc);
    } else {
        let p = d[0];
        let rest = d.drop_first();
        assert(valid_code(p.0 as int));
        assert forall|k: int| 0 <= k < rest.len() implies valid_code(
            (#[trigger] rest[k]).0 as int,
        ) by {
            assert(rest[k] == d[k + 1]);
        }
        lemma_enc_num_len(p.0 as int, 20);
        lemma_enc_num_len(p.1 as int, 20);
        lemma_enc_dist_len(rest);
        lemma_enc_num(p.0 as int, 20);
        lemma_enc_num(p.1 as int, 20);
        let total: int = (40 * d.len()) as int;
        lemma_sub_of_sub(s, off, total, enc_dist(d), 0, 20);
        assert(enc_dist(d).subrange(0, 20) =~= enc_num(p.0 as int, 20));
        assert(chunk_at(s, off) == enc_num(p.0 as int, 20));
        lemma_sub_of_sub(s, off, total, enc_dist(d), 20, 40);
        assert(enc_dist(d).subrange(20, 40) =~= enc_num(p.1 as int, 20));
        assert(chunk_at(s, off + 20) == enc_num(p.1 as int, 20));
        assert(num_ok(s, off) && num_at(s, off) == p.0 as int);
        assert(num_ok(s, off + 20) && num_at(s, off + 20) == p.1 as int);
        assert(valid_code(num_at(s, off)));
        assert((num_at(s, off) as char) == p.0);
        assert((num_at(s, off + 20) as u64) == p.1);
        lemma_sub_of_sub(s, off, total, enc_dist(d), 40, total);
        assert(enc_dist(d).subrange(40, total) =~= enc_dist(rest));
        assert(s.subrange(off + 40, off + 40 + 40 * rest.len()) == enc_dist(rest));
        lemma_parse_enc_dist(s, off + 40, rest, acc.push(p));
        assert(acc.push(p) + rest =~= acc + d);
    }
}

/// Reading encoded per-letter records back gives the records.
pub proof fn lemma_parse_enc_letters(
    s: Seq<u8>,
    off: int,
    ls: Seq<JSONLetterInfoV>,
    acc: Seq<JSONLetterInfoV>,
)
    requires
        0 <= off,
        off + enc_letters(ls).len() <= s.len(),
        s.subrange(off, off + enc_letters(ls).len()) == enc_letters(ls),
        forall|j: int| 0 <= j < ls.len() ==> (#[trigger] ls[j]).dist.len() <= u64::MAX,
        letters_codes_valid(ls),
    ensures
        parse_letters(s, off, ls.len() as int, acc) == Some(
            (acc + ls, off + enc_letters(ls).len()),
        ),
    decreases ls.len(),
{
    lemma_pow10_20();
    if ls.len() == 0 {
        assert(acc + ls =~= acc);
    } else {
        let e = ls[0];
        let rest = ls.drop_first();
        assert(valid_code(e.main as int) && dist_codes_valid(e.dist));
        assert forall|j: int|
            0 <= j < rest.len() implies valid_code((#[trigger] rest[j]).main as int)
            && dist_codes_valid(rest[j].dist) && rest[j].dist.len() <= u64::MAX by {
            assert(rest[j] == ls[j + 1]);
        }
        lemma_enc_num_len(e.main as int, 20);
        lemma_enc_num_len(e.presses as int, 20);
        lemma_enc_num_len(e.dist.len() as int, 20);
        lemma_enc_dist_len(e.dist);
        lemma_enc_num(e.main as int, 20);
        lemma_enc_num(e.presses as int, 20);
        lemma_enc_num(e.dist.len() as int, 20);
        lemma_enc_dist_len(e.dist);
        let total = enc_letters(ls).len() as int;
        let el = enc_letters(ls);
        lemma_sub_of_sub(s, off, total, el, 0, 20);
        assert(el.subrange(0, 20) =~= enc_num(e.main as int, 20));
        assert(chunk_at(s, off) == enc_num(e.main as int, 20));
        lemma_sub_of_sub(s, off, total, el, 20, 40);
        assert(el.subrange(20, 40) =~= enc_num(e.presses as int, 20));
        assert(chunk_at(s, off + 20) == enc_num(e.presses as int, 20));
        lemma_sub_of_sub(s, off, total, el, 40, 60);
        assert(el.subrange(40, 60) =~= enc_num(e.dist.len() as int, 20));
        assert(chunk_at(s, off + 40) == enc_num(e.dist.len() as int, 20));
        assert(num_ok(s, off) && num_at(s, off) == e.main as int);
        assert(num_ok(s, off + 20) && num_at(s, off + 20) == e.presses as int);
        assert(num_ok(s, off + 40) && num_at(s, off + 40) == e.dist.len() as int);
        assert(valid_code(num_at(s, off)));
        assert((num_at(s, off) as char) == e.main);
        let dlen: int = (40 * e.dist.len()) as int;
        let dist_end = off + 60 + dlen;
        lemma_sub_of_sub(s, off, total, el, 60, 60 + dlen);
        assert(el.subrange(60, 60 + dlen) =~= enc_dist(e.dist));
        assert(s.subrange(off + 60, dist_end) == enc_dist(e.dist));
        lemma_parse_enc_dist(s, off + 60, e.dist, Seq::empty());
        assert(Seq::<(char, u64)>::empty() + e.dist =~= e.dist);
        assert(parse_dist(s, off + 60, e.dist.len() as int, Seq::empty()) == Some(
            (e.dist, dist_end),
        ));
        lemma_sub_of_sub(s, off, total, el, 60 + dlen, total);
        assert(el.subrange(60 + dlen, total) =~= enc_letters(rest));
        assert(s.subrange(dist_end, dist_end + enc_letters(rest).len()) == enc_letters(rest));
        lemma_parse_enc_letters(s, dist_end, rest, acc.push(e));
        assert(acc.push(e) + rest =~= acc + ls);
        assert(acc.push(e) == acc.push(
            JSONLetterInfoV {
                main: num_at(s, off) as char,
                presses: num_at(s, off + 20) as u64,
                dist: e.dist,
            },
        ));
    }
}

/// Writing an aggregate and reading it back reproduces it exactly.
pub proof fn lemma_store_round_trip(r: JSONResultsV)
    requires
        r.wf(),
        r.letters.len() <= u64::MAX,
        forall|j: int| 0 <= j < r.letters.len() ==> (#[trigger] r.letters[j]).dist.len()
            <= u64::MAX,
        letters_codes_valid(r.letters),
    ensures
        dec_results(enc_results(r)) == Some(r),
{
    lemma_pow10_20();
    let s = enc_results(r);
    lemma_enc_num_len(r.wpm_milli as int, 20);
    lemma_enc_num_len(r.acc_tenths as int, 20);
    lemma_enc_num_len(r.letters.len() as int, 20);
    lemma_enc_num(r.wpm_milli as int, 20);
    lemma_enc_num(r.acc_tenths as int, 20);
    lemma_enc_num(r.letters.len() as int, 20);
    let total = s.len() as int;
    assert(s.subrange(0, total) =~= s);
    lemma_sub_of_sub(s, 0, total, s, 0, 20);
    assert(s.subrange(0, 20) =~= enc_num(r.wpm_milli as int, 20));
    assert(chunk_at(s, 0) == enc_num(r.wpm_milli as int, 20));
    lemma_sub_of_sub(s, 0, total, s, 20, 40);
    assert(s.subrange(20, 40) =~= enc_num(r.acc_tenths as int, 20));
    assert(chunk_at(s, 20) == enc_num(r.acc_tenths as int, 20));
    lemma_sub_of_sub(s, 0, total, s, 40, 60);
    assert(s.subrange(40, 60) =~= enc_num(r.letters.len() as int, 20));
    assert(chunk_at(s, 40) == enc_num(r.letters.len() as int, 20));
    assert(num_ok(s, 0) && num_at(s, 0) == r.wpm_milli as int);
    assert(num_ok(s, 20) && num_at(s, 20) == r.acc_tenths as int);
    assert(num_ok(s, 40) && num_at(s, 40) == r.letters.len() as int);
    assert(s.subrange(60, 60 + enc_letters(r.letters).len() as int) =~= enc_letters(r.letters));
    lemma_parse_enc_letters(s, 60, r.letters, Seq::empty());
    assert(Seq::<JSONLetterInfoV>::empty() + r.letters == r.letters) by {
        assert(Seq::<JSONLetterInfoV>::empty() + r.letters =~= r.letters);
    }
    assert(s.len() == 60 + enc_letters(r.letters).len());
    assert(parse_results(s) == Some(r));
}

// ---------------------------------------------------------------------------
// Executable encoding.
// ---------------------------------------------------------------------------
/// The stored form grows record by record.
pub proof fn lemma_enc_letters_push(s: Seq<JSONLetterInfoV>, e: JSONLetterInfoV)
    ensures
        enc_letters(s.push(e)) == enc_letters(s) + enc_letter(e),
    decreases s.len(),
{
    if s.len() == 0 {
        assert(s.push(e).drop_first() =~= Seq::<JSONLetterInfoV>::empty());
        assert(enc_letters(Seq::<JSONLetterInfoV>::empty()) == Seq::<u8>::empty());
        assert(s.push(e)[0] == e);
        assert(enc_letters(s.push(e)) =~= enc_letters(s) + enc_letter(e));
    } else {
        assert(s.push(e)[0] == s[0]);
        assert(s.push(e).drop_first() =~= s.drop_first().push(e));
        lemma_enc_letters_push(s.drop_first(), e);
        assert(enc_letters(s.push(e)) =~= enc_letters(s) + enc_letter(e));
    }
}

/// The stored form of a distribution grows entry by entry.
pub proof fn lemma_enc_dist_push(d: Seq<(char, u64)>, p: (char, u64))
    ensures
        enc_dist(d.push(p)) == enc_dist(d) + enc_pair(p),
    decreases d.len(),
{
    if d.len() == 0 {
        assert(d.push(p).drop_first() =~= Seq::<(char, u64)>::empty());
        assert(enc_dist(Seq::<(char, u64)>::empty()) == Seq::<u8>::empty());
        assert(d.push(p)[0] == p);
        assert(enc_dist(d.push(p)) =~= enc_dist(d) + enc_pair(p));
    } else {
        assert(d.push(p)[0] == d[0]);
        assert(d.push(p).drop_first() =~= d.drop_first().push(p));
        lemma_enc_dist_push(d.drop_first(), p);
        assert(enc_dist(d.push(p)) =~= enc_dist(d) + enc_pair(p));
    }
}

/// A character's code point, as the stored form writes it.
fn char_code(c: char) -> (r: u64)
    ensures
        r == c as int,
        0 <= c as int <= 0x10FFFF,
        valid_code(c as int),
{
    (c as u32) as u64
}

/// Write the aggregate in its stored form.
pub fn encode_results(r: &JSONResults) -> (out: Vec<u8>)
    ensures
        out@ == enc_results(r@),
{
    let mut out: Vec<u8> = Vec::new();
    push_num(&mut out, r.wpm_milli);
    push_num(&mut out, r.total_accuracy_tenths);
    push_num(&mut out, r.letters_info.len() as u64);
    let ghost head = enc_num(r@.wpm_milli as int, 20) + enc_num(r@.acc_tenths as int, 20)
        + enc_num(r@.letters.len() as int, 20);
    proof {
        crate::results::lemma_letters_view(r.letters_info@);
        assert(enc_letters(r@.letters.take(0)) =~= Seq::<u8>::empty()) by {
            assert(r@.letters.take(0) =~= Seq::<JSONLetterInfoV>::empty());
        }
        assert(out@ =~= head + enc_letters(r@.letters.take(0)));
    }
    let n = r.letters_info.len();
    let mut j: usize = 0;
    while j < n
        invariant
            j <= n,
            n == r.letters_info.len(),
            head == enc_num(r@.wpm_milli as int, 20) + enc_num(r@.acc_tenths as int, 20)
                + enc_num(r@.letters.len() as int, 20),
            out@ == head + enc_letters(r@.letters.take(j as int)),
        decreases n - j,
    {
        let ghost jj = j as int;
        let ghost lsj = r@.letters[jj];
        proof {
            crate::results::lemma_letters_view(r.letters_info@);
            assert(lsj == r.letters_info@[jj]@);
        }
        let li = &r.letters_info[j];
        let main_code = char_code(li.main_letter);
        push_num(&mut out, main_code);
        push_num(&mut out, li.presses_of_key);
        push_num(&mut out, li.letter_accuracies.len() as u64);
        let ghost pre = head + enc_letters(r@.letters.take(jj)) + enc_num(lsj.main as int, 20)
            + enc_num(lsj.presses as int, 20) + enc_num(lsj.dist.len() as int, 20);
        proof {
            assert(enc_dist(lsj.dist.take(0)) =~= Seq::<u8>::empty()) by {
                assert(lsj.dist.take(0) =~= Seq::<(char, u64)>::empty());
            }
            assert(out@ =~= pre + enc_dist(lsj.dist.take(0)));
        }
        let m = li.letter_accuracies.len();
        let mut k: usize = 0;
        while k < m
            invariant
                k <= m,
                m == li.letter_accuracies.len(),
                lsj == li@,
                out@ == pre + enc_dist(lsj.dist.take(k as int)),
            decreases m - k,
        {
            let (pc, pn) = li.letter_accuracies[k];
            let code = char_code(pc);
            push_num(&mut out, code);
            push_num(&mut out, pn);
            proof {
                lemma_enc_dist_push(lsj.dist.take(k as int), (pc, pn));
                assert(lsj.dist.take(k as int + 1) =~= lsj.dist.take(k as int).push((pc, pn)));
                assert(enc_dist(lsj.dist.take(k as int + 1)) == enc_dist(lsj.dist.take(k as int))
                    + enc_pair((pc, pn)));
                assert(out@ =~= pre + enc_dist(lsj.dist.take(k as int + 1)));
            }
            k = k + 1;
        }
        proof {
            assert(lsj.dist.take(m as int) =~= lsj.dist);
            lemma_enc_letters_push(r@.letters.take(jj), lsj);
            assert(r@.letters.take(jj + 1) =~= r@.letters.take(jj).push(lsj));
            assert(out@ =~= head + enc_letters(r@.letters.take(jj + 1)));
        }
        j = j + 1;
    }
    proof {
        assert(r@.letters.take(n as int) =~= r@.letters);
        assert(out@ =~= enc_results(r@));
    }
    out
}

// ---------------------------------------------------------------------------
// Executable decoding.
// ---------------------------------------------------------------------------
/// Relies on char::from_u32: it returns `Some` exactly for code points
/// that are not surrogates and do not exceed 0x10FFFF, and the character
/// it returns is the one with that code point.
#[verifier::external_body]
fn char_from_u32(u: u32) -> (r: Option<char>)
    ensures
        r is Some <==> valid_code(u as int),
        r matches Some(c) ==> c == ((u as int) as char) && c as int == u as int,
{
    char::from_u32(u)
}

/// Read an aggregate back from its stored form; anything malformed or
/// inconsistent yields nothing.
pub fn decode_results(s: &Vec<u8>) -> (r: Option<JSONResults>)
    ensures
        match r {
            Some(j) => dec_results(s@) == Some(j@) && j@.wf(),
            None => dec_results(s@) is None,
        },
{
    let slen = s.len();
    let wpm = match read_num(s, 0) {
        Some(v) => v,
        None => {
            return None;
        },
    };
    let acc = match read_num(s, 20) {
        Some(v) => v,
        None => {
            return None;
        },
    };
    let nl = match read_num(s, 40) {
        Some(v) => v,
        None => {
            return None;
        },
    };
    let mut letters_info: Vec<JSONLetterInfo> = Vec::new();
    let mut off: usize = 60;
    let mut rem: u64 = nl;
    proof {
        crate::results::lemma_letters_view(letters_info@);
        assert(crate::results::letters_view(letters_info@) =~= Seq::<JSONLetterInfoV>::empty());
    }
    while rem > 0
        invariant
            s@.len() <= usize::MAX,
            num_ok(s@, 0) && num_at(s@, 0) == wpm,
            num_ok(s@, 20) && num_at(s@, 20) == acc,
            num_ok(s@, 40) && num_at(s@, 40) == nl,
            parse_letters(s@, 60, nl as int, Seq::empty()) == parse_letters(
                s@,
                off as int,
                rem as int,
                crate::results::letters_view(letters_info@),
            ),
        decreases rem,
    {
        let ghost lv = crate::results::letters_view(letters_info@);
        let code = match read_num(s, off) {
            Some(v) => v,
            None => {
                return None;
            },
        };
        let presses = match read_num(s, off + 20) {
            Some(v) => v,
            None => {
                return None;
            },
        };
        let cnt = match read_num(s, off + 40) {
            Some(v) => v,
            None => {
                return None;
            },
        };
        if code > 0x10FFFF {
            proof {
                assert(!valid_code(num_at(s@, off as int)));
            }
            return None;
        }
        let c_main = match char_from_u32(code as u32) {
            Some(c) => c,
            None => {
                proof {
                    assert(!valid_code(num_at(s@, off as int)));
                }
                return None;
            },
        };
        let mut dvec: Vec<(char, u64)> = Vec::new();
        let mut doff: usize = off + 60;
        let mut drem: u64 = cnt;
        while drem > 0
            invariant
                s@.len() <= usize::MAX,
                num_ok(s@, 0) && num_at(s@, 0) == wpm,
                num_ok(s@, 20) && num_at(s@, 20) == acc,
                num_ok(s@, 40) && num_at(s@, 40) == nl,
                parse_letters(s@, 60, nl as int, Seq::empty()) == parse_letters(
                    s@,
                    off as int,
                    rem as int,
                    lv,
                ),
                lv == crate::results::letters_view(letters_info@),
                rem > 0,
                num_ok(s@, off as int) && num_at(s@, off as int) == code,
                num_ok(s@, off as int + 20) && num_at(s@, off as int + 20) == presses,
                num_ok(s@, off as int + 40) && num_at(s@, off as int + 40) == cnt,
                valid_code(code as int),
                c_main as int == code as int,
                parse_dist(s@, off as int + 60, cnt as int, Seq::empty()) == parse_dist(
                    s@,
                    doff as int,
                    drem as int,
                    dvec@,
                ),
            decreases drem,
        {
            let dc = match read_num(s, doff) {
                Some(v) => v,
                None => {
                    return None;
                },
            };
            let dn = match read_num(s, doff + 20) {
                Some(v) => v,
                None => {
                    return None;
                },
            };
            if dc > 0x10FFFF {
                proof {
                    assert(!valid_code(num_at(s@, doff as int)));
                }
                return None;
            }
            let dchar = match char_from_u32(dc as u32) {
                Some(c) => c,
                None => {
                    proof {
                        assert(!valid_code(num_at(s@, doff as int)));
                    }
                    return None;
                },
            };
            dvec.push((dchar, dn));
            proof {
                assert(dchar == (num_at(s@, doff as int) as char));
                assert(dvec@ =~= dvec@.subrange(0, dvec@.len() as int));
            }
            doff = doff + 40;
            drem = drem - 1;
        }
        let li = JSONLetterInfo {
            main_letter: c_main,
            letter_accuracies: dvec,
            presses_of_key: presses,
        };
        letters_info.push(li);
        proof {
            assert(parse_dist(s@, off as int + 60, cnt as int, Seq::empty()) == Some(
                (li.letter_accuracies@, doff as int),
            ));
            assert(c_main == (num_at(s@, off as int) as char));
            assert(li@ == (JSONLetterInfoV {
                main: num_at(s@, off as int) as char,
                presses: num_at(s@, off as int + 20) as u64,
                dist: li.letter_accuracies@,
            }));
            crate::results::lemma_letters_view(letters_info@);
            assert(crate::results::letters_view(letters_info@) =~= lv.push(li@));
        }
        off = doff;
        rem = rem - 1;
    }
    if off != s.len() {
        return None;
    }
    let res = JSONResults { wpm_milli: wpm, total_accuracy_tenths: acc, letters_info };
    proof {
        assert(parse_letters(s@, 60, nl as int, Seq::empty()) == Some(
            (crate::results::letters_view(res.letters_info@), off as int),
        ));
        assert(parse_results(s@) == Some(res@)) by {
            assert(parse_results(s@) matches Some(x) && x == res@);
        }
    }
    if res.check_wf() {
        Some(res)
    } else {
        None
    }
}

/// The aggregate a byte buffer holds: the decoded document, or the empty
/// aggregate when the buffer is absent, truncated or corrupt.
pub fn results_from_bytes(s: &Vec<u8>) -> (r: JSONResults)
    ensures
        r@ == (match dec_results(s@) {
            Some(j) => j,
            None => crate::results::empty_results(),
        }),
        r@.wf(),
{
    match decode_results(s) {
        Some(j) => j,
        None => {
            let r = JSONResults::new();
            r
        },
    }
}

} // verus!
