//! The persisted form of a session: every field written to bytes and read
//! back, with a proof that a saved session loads back equal in every field.
use vstd::prelude::*;

use crate::addr::ServerAddr;
use crate::record::lemma_record_type_code_rt;
use crate::record::RecordType;
use crate::session::Answer;
use crate::session::AnswerStatus;
use crate::session::AnswerView;
use crate::session::Event;
use crate::session::EventView;
use crate::session::Question;
use crate::session::QuestionView;
use crate::session::RequestLogEntry;
use crate::session::RequestLogEntryView;
use crate::session::Session;
use crate::session::SessionView;
use crate::session::Timestamp;
use crate::session::OutputMode;
use crate::session::RequestView;
use crate::session::Request;
use crate::session::ResponseResultView;
use crate::session::ResponseResult;
use crate::session::ResponseView;
use crate::session::Response;
use vstd::arithmetic::div_mod::lemma_fundamental_div_mod;
use vstd::arithmetic::div_mod::lemma_multiply_divide_lt;
use vstd::string::StringExecFns;
use vstd::utf8::char_is_scalar;
use vstd::utf8::char_u32_cast;
use vstd::utf8::is_scalar;

verus! {

/// A 64-bit number as eight bytes, least significant first.
#[verifier::opaque]
pub open spec fn spec_u64_le(v: u64) -> Seq<u8> {
    let v0 = v as int;
    let v1 = v0 / 256;
    let v2 = v1 / 256;
    let v3 = v2 / 256;
    let v4 = v3 / 256;
    let v5 = v4 / 256;
    let v6 = v5 / 256;
    let v7 = v6 / 256;
    seq![
        (v0 % 256) as u8,
        (v1 % 256) as u8,
        (v2 % 256) as u8,
        (v3 % 256) as u8,
        (v4 % 256) as u8,
        (v5 % 256) as u8,
        (v6 % 256) as u8,
        (v7 % 256) as u8,
    ]
}

/// The number the first eight bytes of `b` write, least significant first.
#[verifier::opaque]
pub open spec fn spec_u64_of(b: Seq<u8>) -> int {
    b[0] + 256 * (b[1] + 256 * (b[2] + 256 * (b[3] + 256 * (b[4] + 256 * (b[5] + 256 * (b[6]
        + 256 * b[7]))))))
}

/// A number always encodes into eight bytes.
pub broadcast proof fn lemma_u64_le_len(v: u64)
    ensures
        (#[trigger] spec_u64_le(v)).len() == 8,
{
    reveal(spec_u64_le);
}

/// Reading back the eight bytes of a number gives the number.
pub proof fn lemma_u64_le_of(v: u64)
    ensures
        spec_u64_of(spec_u64_le(v)) == v,
{
    reveal(spec_u64_le);
    reveal(spec_u64_of);
    let v0 = v as int;
    let v1 = v0 / 256;
    let v2 = v1 / 256;
    let v3 = v2 / 256;
    let v4 = v3 / 256;
    let v5 = v4 / 256;
    let v6 = v5 / 256;
    let v7 = v6 / 256;
    lemma_fundamental_div_mod(v0, 256);
    lemma_fundamental_div_mod(v1, 256);
    lemma_fundamental_div_mod(v2, 256);
    lemma_fundamental_div_mod(v3, 256);
    lemma_fundamental_div_mod(v4, 256);
    lemma_fundamental_div_mod(v5, 256);
    lemma_fundamental_div_mod(v6, 256);
    lemma_fundamental_div_mod(v7, 256);
    assert(v7 < 256) by {
        lemma_multiply_divide_lt(v0, 256, 0x100000000000000);
        lemma_multiply_divide_lt(v1, 256, 0x1000000000000);
        lemma_multiply_divide_lt(v2, 256, 0x10000000000);
        lemma_multiply_divide_lt(v3, 256, 0x100000000);
        lemma_multiply_divide_lt(v4, 256, 0x1000000);
        lemma_multiply_divide_lt(v5, 256, 0x10000);
        lemma_multiply_divide_lt(v6, 256, 0x100);
    }
}

/// What the head of `b` holds for a number: its first eight bytes, if it has
/// them.
pub open spec fn spec_dec_u64(b: Seq<u8>) -> Option<(u64, int)> {
    if b.len() >= 8 {
        Some((spec_u64_of(b.take(8)) as u64, 8))
    } else {
        None
    }
}

/// Decoding an encoded number gives the number back, whatever follows it.
pub proof fn lemma_u64_rt(v: u64, rest: Seq<u8>)
    ensures
        spec_dec_u64(spec_u64_le(v) + rest) == Some((v, 8int)),
{
    broadcast use lemma_u64_le_len;

    let b = spec_u64_le(v) + rest;
    assert(b.take(8) =~= spec_u64_le(v));
    lemma_u64_le_of(v);
}

/// Appends the eight bytes of a number.
fn push_u64(out: &mut Vec<u8>, v: u64)
    ensures
        final(out)@ == old(out)@ + spec_u64_le(v),
{
    let b0 = (v % 256) as u8;
    let v1 = v / 256;
    let b1 = (v1 % 256) as u8;
    let v2 = v1 / 256;
    let b2 = (v2 % 256) as u8;
    let v3 = v2 / 256;
    let b3 = (v3 % 256) as u8;
    let v4 = v3 / 256;
    let b4 = (v4 % 256) as u8;
    let v5 = v4 / 256;
    let b5 = (v5 % 256) as u8;
    let v6 = v5 / 256;
    let b6 = (v6 % 256) as u8;
    let v7 = v6 / 256;
    let b7 = (v7 % 256) as u8;
    out.push(b0);
    out.push(b1);
    out.push(b2);
    out.push(b3);
    out.push(b4);
    out.push(b5);
    out.push(b6);
    out.push(b7);
    proof {
        reveal(spec_u64_le);
    }
    assert(final(out)@ =~= old(out)@ + spec_u64_le(v));
}

/// Reads a number from the eight bytes at `pos`, as [`spec_dec_u64`]
/// describes.
fn read_u64(b: &Vec<u8>, pos: usize) -> (r: Option<(u64, usize)>)
    requires
        pos <= b@.len(),
    ensures
        match spec_dec_u64(b@.skip(pos as int)) {
            Option::None => r is None,
            Option::Some((v, k)) => r matches Some((w, p)) && w == v && p == pos + k && pos <= p && pos + k <= b@.len(),
        },
{
    if b.len() - pos < 8 {
        return None;
    }
    let x7 = b[pos + 7] as u64;
    let x6 = b[pos + 6] as u64;
    let x5 = b[pos + 5] as u64;
    let x4 = b[pos + 4] as u64;
    let x3 = b[pos + 3] as u64;
    let x2 = b[pos + 2] as u64;
    let x1 = b[pos + 1] as u64;
    let x0 = b[pos] as u64;
    let v = x0 + 256 * (x1 + 256 * (x2 + 256 * (x3 + 256 * (x4 + 256 * (x5 + 256 * (x6 + 256
        * x7))))));
    proof {
        reveal(spec_u64_of);
        let suffix = b@.skip(pos as int);
        assert(suffix.take(8)[0] == b@[pos as int]);
        assert(suffix.take(8)[1] == b@[pos + 1]);
        assert(suffix.take(8)[2] == b@[pos + 2]);
        assert(suffix.take(8)[3] == b@[pos + 3]);
        assert(suffix.take(8)[4] == b@[pos + 4]);
        assert(suffix.take(8)[5] == b@[pos + 5]);
        assert(suffix.take(8)[6] == b@[pos + 6]);
        assert(suffix.take(8)[7] == b@[pos + 7]);
        assert(v == spec_u64_of(suffix.take(8)));
    }
    Some((v, pos + 8))
}

/// A truth value as one byte.
pub open spec fn spec_enc_bool(v: bool) -> Seq<u8> {
    seq![if v { 1u8 } else { 0u8 }]
}

/// What the head of `b` holds for a truth value.
pub open spec fn spec_dec_bool(b: Seq<u8>) -> Option<(bool, int)> {
    if b.len() >= 1 && (b[0] == 0 || b[0] == 1) {
        Some((b[0] == 1, 1))
    } else {
        None
    }
}

/// Decoding an encoded truth value gives it back.
pub proof fn lemma_bool_rt(v: bool, rest: Seq<u8>)
    ensures
        spec_dec_bool(spec_enc_bool(v) + rest) == Some((v, 1int)),
{
    assert((spec_enc_bool(v) + rest)[0] == spec_enc_bool(v)[0]);
}

/// Appends a truth value.
fn push_bool(out: &mut Vec<u8>, v: bool)
    ensures
        final(out)@ == old(out)@ + spec_enc_bool(v),
{
    out.push(if v { 1u8 } else { 0u8 });
    assert(final(out)@ =~= old(out)@ + spec_enc_bool(v));
}

/// Reads a truth value, as [`spec_dec_bool`] describes.
fn read_bool(b: &Vec<u8>, pos: usize) -> (r: Option<(bool, usize)>)
    requires
        pos <= b@.len(),
    ensures
        match spec_dec_bool(b@.skip(pos as int)) {
            Option::None => r is None,
            Option::Some((v, k)) => r matches Some((w, p)) && w == v && p == pos + k && pos <= p && pos + k <= b@.len(),
        },
{
    if pos >= b.len() {
        return None;
    }
    let t = b[pos];
    proof {
        assert(b@.skip(pos as int)[0] == b@[pos as int]);
    }
    if t == 0 {
        Some((false, pos + 1))
    } else if t == 1 {
        Some((true, pos + 1))
    } else {
        None
    }
}

/// A signed number as a sign byte and a magnitude: `0` and the value itself
/// when it is not negative, else `1` and how far below zero it lies.
pub open spec fn spec_enc_i64(v: i64) -> Seq<u8> {
    if v >= 0 {
        seq![0u8] + spec_u64_le(v as u64)
    } else {
        seq![1u8] + spec_u64_le(((-(v + 1)) as u64 + 1) as u64)
    }
}

/// What the head of `b` holds for a signed number.
pub open spec fn spec_dec_i64(b: Seq<u8>) -> Option<(i64, int)> {
    if b.len() < 1 {
        None
    } else {
        let tag = b[0];
        match spec_dec_u64(b.skip(1)) {
            Option::None => None,
            Option::Some((m, k)) => if tag == 0 && m <= i64::MAX as u64 {
                Some((m as i64, 1 + k))
            } else if tag == 1 && 1 <= m && m <= 0x8000000000000000 {
                Some(((-((m - 1) as i64) - 1) as i64, 1 + k))
            } else {
                None
            },
        }
    }
}

/// Decoding an encoded signed number gives it back.
pub proof fn lemma_i64_rt(v: i64, rest: Seq<u8>)
    ensures
        spec_dec_i64(spec_enc_i64(v) + rest) == Some((v, 9int)),
{
    let b = spec_enc_i64(v) + rest;
    if v >= 0 {
        assert(b.skip(1) =~= spec_u64_le(v as u64) + rest);
        lemma_u64_rt(v as u64, rest);
        assert(b[0] == 0);
    } else {
        let m = (-(v + 1)) as u64 + 1;
        assert(b.skip(1) =~= spec_u64_le(m as u64) + rest);
        lemma_u64_rt(m as u64, rest);
        assert(b[0] == 1);
    }
}

/// Appends a signed number.
fn push_i64(out: &mut Vec<u8>, v: i64)
    ensures
        final(out)@ == old(out)@ + spec_enc_i64(v),
{
    if v >= 0 {
        out.push(0u8);
        push_u64(out, v as u64);
    } else {
        out.push(1u8);
        push_u64(out, (-(v + 1)) as u64 + 1);
    }
    assert(final(out)@ =~= old(out)@ + spec_enc_i64(v));
}

/// Reads a signed number, as [`spec_dec_i64`] describes.
fn read_i64(b: &Vec<u8>, pos: usize) -> (r: Option<(i64, usize)>)
    requires
        pos <= b@.len(),
    ensures
        match spec_dec_i64(b@.skip(pos as int)) {
            Option::None => r is None,
            Option::Some((v, k)) => r matches Some((w, p)) && w == v && p == pos + k && pos <= p && pos + k <= b@.len(),
        },
{
    if pos >= b.len() {
        return None;
    }
    let tag = b[pos];
    proof {
        assert(b@.skip(pos as int)[0] == b@[pos as int]);
        assert(b@.skip(pos as int).skip(1) =~= b@.skip(pos + 1));
    }
    let (m, p) = match read_u64(b, pos + 1) {
        Some(x) => x,
        None => {
            return None;
        },
    };
    if tag == 0 && m <= i64::MAX as u64 {
        Some((m as i64, p))
    } else if tag == 1 && 1 <= m && m <= 0x8000000000000000u64 {
        Some((-((m - 1) as i64) - 1, p))
    } else {
        None
    }
}

/// Relies on char::from_u32: a character comes back exactly for a Unicode
/// scalar value, and it is the character with that value.
#[verifier::external_body]
fn char_from_u32(v: u32) -> (r: Option<char>)
    ensures
        r == (if is_scalar(v) {
            Some(v as char)
        } else {
            None
        }),
{
    char::from_u32(v)
}

/// Relies on String::push: it appends exactly the given character.
#[verifier::external_body]
fn push_char(s: &mut String, c: char)
    ensures
        final(s)@ == old(s)@.push(c),
{
    s.push(c)
}

/// The characters of a text, each as its eight-byte scalar value.
pub open spec fn spec_enc_chars(s: Seq<char>) -> Seq<u8>
    decreases s.len(),
{
    if s.len() == 0 {
        Seq::<u8>::empty()
    } else {
        spec_u64_le((s[0] as u32) as u64) + spec_enc_chars(s.drop_first())
    }
}

/// What the head of `b` holds for `n` characters.
pub open spec fn spec_dec_chars(b: Seq<u8>, n: nat) -> Option<(Seq<char>, int)>
    decreases n,
{
    if n == 0 {
        Some((Seq::<char>::empty(), 0))
    } else {
        match spec_dec_u64(b) {
            Option::None => None,
            Option::Some((v, k)) => if v <= u32::MAX as u64 && is_scalar(v as u32) {
                match spec_dec_chars(b.skip(k), (n - 1) as nat) {
                    Option::None => None,
                    Option::Some((cs, m)) => Some((seq![(v as u32) as char] + cs, k + m)),
                }
            } else {
                None
            },
        }
    }
}

/// A character run encodes into eight bytes per character.
pub proof fn lemma_enc_chars_len(s: Seq<char>)
    ensures
        spec_enc_chars(s).len() == 8 * s.len(),
    decreases s.len(),
{
    broadcast use lemma_u64_le_len;

    if s.len() > 0 {
        lemma_enc_chars_len(s.drop_first());
    }
}

/// Decoding an encoded character run gives it back, whatever follows it.
pub proof fn lemma_chars_rt(s: Seq<char>, rest: Seq<u8>)
    ensures
        spec_dec_chars(spec_enc_chars(s) + rest, s.len()) == Some((s, 8 * s.len() as int)),
    decreases s.len(),
{
    broadcast use lemma_u64_le_len;

    lemma_enc_chars_len(s);
    if s.len() > 0 {
        let c = s[0];
        let v = (c as u32) as u64;
        let b = spec_enc_chars(s) + rest;
        assert(b =~= spec_u64_le(v) + (spec_enc_chars(s.drop_first()) + rest));
        lemma_u64_rt(v, spec_enc_chars(s.drop_first()) + rest);
        char_is_scalar(c);
        assert(is_scalar(v as u32));
        char_u32_cast(c, c as u32);
        assert((v as u32) as char == c);
        assert(b.skip(8) =~= spec_enc_chars(s.drop_first()) + rest);
        lemma_chars_rt(s.drop_first(), rest);
        assert(seq![c] + s.drop_first() =~= s);
    }
}

/// A text as its length and its characters.
pub open spec fn spec_enc_str(s: Seq<char>) -> Seq<u8> {
    spec_u64_le(s.len() as u64) + spec_enc_chars(s)
}

/// What the head of `b` holds for a text.
pub open spec fn spec_dec_str(b: Seq<u8>) -> Option<(Seq<char>, int)> {
    match spec_dec_u64(b) {
        Option::None => None,
        Option::Some((n, k)) => if n <= usize::MAX as u64 {
            match spec_dec_chars(b.skip(k), n as nat) {
                Option::None => None,
                Option::Some((cs, m)) => Some((cs, k + m)),
            }
        } else {
            None
        },
    }
}

/// Decoding an encoded text gives it back, whatever follows it.
pub proof fn lemma_str_rt(s: Seq<char>, rest: Seq<u8>)
    requires
        s.len() <= usize::MAX,
    ensures
        spec_dec_str(spec_enc_str(s) + rest) == Some((s, 8 + 8 * s.len() as int)),
{
    broadcast use lemma_u64_le_len;

    let b = spec_enc_str(s) + rest;
    assert(b =~= spec_u64_le(s.len() as u64) + (spec_enc_chars(s) + rest));
    lemma_u64_rt(s.len() as u64, spec_enc_chars(s) + rest);
    assert(b.skip(8) =~= spec_enc_chars(s) + rest);
    lemma_chars_rt(s, rest);
}

/// Appends a text.
fn push_str(out: &mut Vec<u8>, s: &String)
    ensures
        final(out)@ == old(out)@ + spec_enc_str(s@),
{
    broadcast use lemma_u64_le_len;

    let n = s.as_str().unicode_len();
    push_u64(out, n as u64);
    let ghost base = out@;
    let mut i: usize = 0;
    while i < n
        invariant
            i <= n,
            n == s@.len(),
            out@ == base + spec_enc_chars(s@.take(i as int)),
        decreases n - i,
    {
        let c = s.as_str().get_char(i);
        push_u64(out, (c as u32) as u64);
        proof {
            lemma_enc_chars_snoc(s@.take(i as int), s@[i as int]);
            assert(s@.take(i + 1) =~= s@.take(i as int).push(s@[i as int]));
        }
        i += 1;
    }
    proof {
        assert(s@.take(n as int) =~= s@);
        assert(final(out)@ =~= old(out)@ + spec_enc_str(s@));
    }
}

/// Encoding one more character appends its eight bytes.
proof fn lemma_enc_chars_snoc(s: Seq<char>, c: char)
    ensures
        spec_enc_chars(s.push(c)) == spec_enc_chars(s) + spec_u64_le((c as u32) as u64),
    decreases s.len(),
{
    broadcast use lemma_u64_le_len;

    if s.len() == 0 {
        let one = s.push(c);
        assert(one[0] == c);
        assert(one.drop_first() =~= Seq::<char>::empty());
        assert(spec_enc_chars(one) == spec_u64_le((one[0] as u32) as u64) + spec_enc_chars(
            one.drop_first(),
        ));
        assert(spec_enc_chars(one.drop_first()) == Seq::<u8>::empty());
        assert(spec_enc_chars(s) == Seq::<u8>::empty());
        assert(spec_u64_le((c as u32) as u64) + Seq::<u8>::empty() =~= spec_u64_le(
            (c as u32) as u64,
        ));
        assert(Seq::<u8>::empty() + spec_u64_le((c as u32) as u64) =~= spec_u64_le(
            (c as u32) as u64,
        ));
    } else {
        assert(s.push(c)[0] == s[0]);
        assert(s.push(c).drop_first() =~= s.drop_first().push(c));
        lemma_enc_chars_snoc(s.drop_first(), c);
        assert(spec_enc_chars(s.push(c)) =~= spec_enc_chars(s) + spec_u64_le((c as u32) as u64));
    }
}

/// Reads a text, as [`spec_dec_str`] describes.
fn read_str(b: &Vec<u8>, pos: usize) -> (r: Option<(String, usize)>)
    requires
        pos <= b@.len(),
    ensures
        match spec_dec_str(b@.skip(pos as int)) {
            Option::None => r is None,
            Option::Some((cs, k)) => r matches Some((s, p)) && s@ == cs && p == pos + k && pos <= p && pos + k <= b@.len(),
        },
{
    let ghost suffix = b@.skip(pos as int);
    let (n64, mut p) = match read_u64(b, pos) {
        Some(x) => x,
        None => {
            return None;
        },
    };
    if n64 > usize::MAX as u64 {
        return None;
    }
    let n = n64 as usize;
    let mut s = String::new();
    let mut j: usize = 0;
    proof {
        assert(suffix.skip(8) =~= b@.skip(pos + 8));
    }
    while j < n
        invariant
            j <= n,
            pos + 8 <= p <= b@.len(),
            s@.len() == j,
            spec_dec_str(b@.skip(pos as int)) == (match spec_dec_chars(
                b@.skip(p as int),
                (n - j) as nat,
            ) {
                Option::None => None,
                Option::Some((cs, m)) => Some((s@ + cs, (p - pos) + m)),
            }),
        decreases n - j,
    {
        let (v, p2) = match read_u64(b, p) {
            Some(x) => x,
            None => {
                return None;
            },
        };
        if v > u32::MAX as u64 {
            return None;
        }
        let c = match char_from_u32(v as u32) {
            Some(c) => c,
            None => {
                return None;
            },
        };
        proof {
            assert(b@.skip(p as int).skip(8) =~= b@.skip(p + 8));
        }
        push_char(&mut s, c);
        proof {
            assert(s@.drop_last() + seq![c] =~= s@);
            assert(forall|cs: Seq<char>| seq![c] + cs =~= (s@ + cs).skip(s@.len() - 1));
        }
        p = p2;
        j += 1;
    }
    proof {
        assert(spec_dec_chars(b@.skip(p as int), 0) == Some((Seq::<char>::empty(), 0int)));
        assert(s@ + Seq::<char>::empty() =~= s@);
    }
    Some((s, p))
}

/// An output mode as one byte.
pub open spec fn spec_enc_mode(m: OutputMode) -> Seq<u8> {
    match m {
        OutputMode::Classic => seq![0u8],
        OutputMode::Verbose => seq![1u8],
    }
}

/// What the head of `b` holds for an output mode.
pub open spec fn spec_dec_mode(b: Seq<u8>) -> Option<(OutputMode, int)> {
    if b.len() >= 1 && b[0] == 0 {
        Some((OutputMode::Classic, 1))
    } else if b.len() >= 1 && b[0] == 1 {
        Some((OutputMode::Verbose, 1))
    } else {
        None
    }
}

/// Decoding an encoded output mode gives it back.
pub proof fn lemma_mode_rt(m: OutputMode, rest: Seq<u8>)
    ensures
        spec_dec_mode(spec_enc_mode(m) + rest) == Some((m, 1int)),
{
    assert((spec_enc_mode(m) + rest)[0] == spec_enc_mode(m)[0]);
}

/// Appends an output mode.
fn push_mode(out: &mut Vec<u8>, m: OutputMode)
    ensures
        final(out)@ == old(out)@ + spec_enc_mode(m),
{
    match m {
        OutputMode::Classic => out.push(0u8),
        OutputMode::Verbose => out.push(1u8),
    }
    assert(final(out)@ =~= old(out)@ + spec_enc_mode(m));
}

/// Reads an output mode, as [`spec_dec_mode`] describes.
fn read_mode(b: &Vec<u8>, pos: usize) -> (r: Option<(OutputMode, usize)>)
    requires
        pos <= b@.len(),
    ensures
        match spec_dec_mode(b@.skip(pos as int)) {
            Option::None => r is None,
            Option::Some((m, k)) => r matches Some((w, p)) && w == m && p == pos + k && pos <= p && pos + k <= b@.len(),
        },
{
    if pos >= b.len() {
        return None;
    }
    proof {
        assert(b@.skip(pos as int)[0] == b@[pos as int]);
    }
    let t = b[pos];
    if t == 0 {
        Some((OutputMode::Classic, pos + 1))
    } else if t == 1 {
        Some((OutputMode::Verbose, pos + 1))
    } else {
        None
    }
}

/// An answer status as one byte.
pub open spec fn spec_enc_status(st: AnswerStatus) -> Seq<u8> {
    match st {
        AnswerStatus::Correct => seq![0u8],
        AnswerStatus::Incorrect => seq![1u8],
        AnswerStatus::Error => seq![2u8],
    }
}

/// What the head of `b` holds for an answer status.
pub open spec fn spec_dec_status(b: Seq<u8>) -> Option<(AnswerStatus, int)> {
    if b.len() >= 1 && b[0] == 0 {
        Some((AnswerStatus::Correct, 1))
    } else if b.len() >= 1 && b[0] == 1 {
        Some((AnswerStatus::Incorrect, 1))
    } else if b.len() >= 1 && b[0] == 2 {
        Some((AnswerStatus::Error, 1))
    } else {
        None
    }
}

/// Decoding an encoded answer status gives it back.
pub proof fn lemma_status_rt(st: AnswerStatus, rest: Seq<u8>)
    ensures
        spec_dec_status(spec_enc_status(st) + rest) == Some((st, 1int)),
{
    assert((spec_enc_status(st) + rest)[0] == spec_enc_status(st)[0]);
}

/// Appends an answer status.
fn push_status(out: &mut Vec<u8>, st: AnswerStatus)
    ensures
        final(out)@ == old(out)@ + spec_enc_status(st),
{
    match st {
        AnswerStatus::Correct => out.push(0u8),
        AnswerStatus::Incorrect => out.push(1u8),
        AnswerStatus::Error => out.push(2u8),
    }
    assert(final(out)@ =~= old(out)@ + spec_enc_status(st));
}

/// Reads an answer status, as [`spec_dec_status`] describes.
fn read_status(b: &Vec<u8>, pos: usize) -> (r: Option<(AnswerStatus, usize)>)
    requires
        pos <= b@.len(),
    ensures
        match spec_dec_status(b@.skip(pos as int)) {
            Option::None => r is None,
            Option::Some((st, k)) => r matches Some((w, p)) && w == st && p == pos + k && pos <= p && pos + k <= b@.len(),
        },
{
    if pos >= b.len() {
        return None;
    }
    proof {
        assert(b@.skip(pos as int)[0] == b@[pos as int]);
    }
    let t = b[pos];
    if t == 0 {
        Some((AnswerStatus::Correct, pos + 1))
    } else if t == 1 {
        Some((AnswerStatus::Incorrect, pos + 1))
    } else if t == 2 {
        Some((AnswerStatus::Error, pos + 1))
    } else {
        None
    }
}

/// A record type as its registered code.
pub open spec fn spec_enc_record_type(t: RecordType) -> Seq<u8> {
    spec_u64_le(t.spec_code() as u64)
}

/// What the head of `b` holds for a record type, read back in canonical form.
pub open spec fn spec_dec_record_type(b: Seq<u8>) -> Option<(RecordType, int)> {
    match spec_dec_u64(b) {
        Option::None => None,
        Option::Some((v, k)) => if v <= u16::MAX as u64 {
            Some((RecordType::spec_from_code(v as u16), k))
        } else {
            None
        },
    }
}

/// Decoding an encoded canonical record type gives it back.
pub proof fn lemma_record_type_rt(t: RecordType, rest: Seq<u8>)
    requires
        t.wf(),
    ensures
        spec_dec_record_type(spec_enc_record_type(t) + rest) == Some((t, 8int)),
{
    lemma_u64_rt(t.spec_code() as u64, rest);
    lemma_record_type_code_rt(t);
}

/// Appends a record type.
fn push_record_type(out: &mut Vec<u8>, t: RecordType)
    ensures
        final(out)@ == old(out)@ + spec_enc_record_type(t),
{
    push_u64(out, t.code() as u64);
}

/// Reads a record type, as [`spec_dec_record_type`] describes.
fn read_record_type(b: &Vec<u8>, pos: usize) -> (r: Option<(RecordType, usize)>)
    requires
        pos <= b@.len(),
    ensures
        match spec_dec_record_type(b@.skip(pos as int)) {
            Option::None => r is None,
            Option::Some((t, k)) => r matches Some((w, p)) && w == t && p == pos + k && pos <= p && pos + k <= b@.len(),
        },
{
    let (v, p) = match read_u64(b, pos) {
        Some(x) => x,
        None => {
            return None;
        },
    };
    if v > u16::MAX as u64 {
        return None;
    }
    Some((RecordType::from_code(v as u16), p))
}

/// A server address as a tag and its numbers.
pub open spec fn spec_enc_addr(a: ServerAddr) -> Seq<u8> {
    match a {
        ServerAddr::V4 { a, b, c, d } => seq![0u8] + spec_u64_le(a as u64) + spec_u64_le(
            b as u64,
        ) + spec_u64_le(c as u64) + spec_u64_le(d as u64),
        ServerAddr::V6 { g0, g1, g2, g3, g4, g5, g6, g7 } => seq![1u8] + spec_u64_le(g0 as u64)
            + spec_u64_le(g1 as u64) + spec_u64_le(g2 as u64) + spec_u64_le(g3 as u64)
            + spec_u64_le(g4 as u64) + spec_u64_le(g5 as u64) + spec_u64_le(g6 as u64)
            + spec_u64_le(g7 as u64),
    }
}

/// What the head of `b` holds for a server address.
pub open spec fn spec_dec_addr(b: Seq<u8>) -> Option<(ServerAddr, int)> {
    if b.len() < 1 {
        None
    } else if b[0] == 0 {
        match spec_dec_u64_n(b.skip(1), 4) {
            Option::None => None,
            Option::Some((vs, k)) => if vs[0] <= u8::MAX as u64 && vs[1] <= u8::MAX as u64
                && vs[2] <= u8::MAX as u64 && vs[3] <= u8::MAX as u64 {
                Some(
                    (
                        ServerAddr::V4 {
                            a: vs[0] as u8,
                            b: vs[1] as u8,
                            c: vs[2] as u8,
                            d: vs[3] as u8,
                        },
                        1 + k,
                    ),
                )
            } else {
                None
            },
        }
    } else if b[0] == 1 {
        match spec_dec_u64_n(b.skip(1), 8) {
            Option::None => None,
            Option::Some((vs, k)) => if vs[0] <= u16::MAX as u64 && vs[1] <= u16::MAX as u64
                && vs[2] <= u16::MAX as u64 && vs[3] <= u16::MAX as u64 && vs[4] <= u16::MAX
                as u64 && vs[5] <= u16::MAX as u64 && vs[6] <= u16::MAX as u64 && vs[7]
                <= u16::MAX as u64 {
                Some(
                    (
                        ServerAddr::V6 {
                            g0: vs[0] as u16,
                            g1: vs[1] as u16,
                            g2: vs[2] as u16,
                            g3: vs[3] as u16,
                            g4: vs[4] as u16,
                            g5: vs[5] as u16,
                            g6: vs[6] as u16,
                            g7: vs[7] as u16,
                        },
                        1 + k,
                    ),
                )
            } else {
                None
            },
        }
    } else {
        None
    }
}

/// What the head of `b` holds for `n` numbers in a row.
pub open spec fn spec_dec_u64_n(b: Seq<u8>, n: nat) -> Option<(Seq<u64>, int)>
    decreases n,
{
    if n == 0 {
        Some((Seq::<u64>::empty(), 0))
    } else {
        match spec_dec_u64(b) {
            Option::None => None,
            Option::Some((v, k)) => match spec_dec_u64_n(b.skip(k), (n - 1) as nat) {
                Option::None => None,
                Option::Some((vs, m)) => Some((seq![v] + vs, k + m)),
            },
        }
    }
}

/// Decoding a run of encoded numbers gives them back.
pub proof fn lemma_u64_n_rt(vs: Seq<u64>, rest: Seq<u8>)
    ensures
        spec_dec_u64_n(spec_enc_u64_n(vs) + rest, vs.len()) == Some(
            (vs, 8 * vs.len() as int),
        ),
    decreases vs.len(),
{
    broadcast use lemma_u64_le_len;

    if vs.len() > 0 {
        let b = spec_enc_u64_n(vs) + rest;
        assert(b =~= spec_u64_le(vs[0]) + (spec_enc_u64_n(vs.drop_first()) + rest));
        lemma_u64_rt(vs[0], spec_enc_u64_n(vs.drop_first()) + rest);
        assert(b.skip(8) =~= spec_enc_u64_n(vs.drop_first()) + rest);
        lemma_u64_n_rt(vs.drop_first(), rest);
        assert(seq![vs[0]] + vs.drop_first() =~= vs);
        lemma_enc_u64_n_len(vs);
    }
}

/// A run of numbers, eight bytes each.
pub open spec fn spec_enc_u64_n(vs: Seq<u64>) -> Seq<u8>
    decreases vs.len(),
{
    if vs.len() == 0 {
        Seq::<u8>::empty()
    } else {
        spec_u64_le(vs[0]) + spec_enc_u64_n(vs.drop_first())
    }
}

/// A run of numbers encodes into eight bytes each.
pub proof fn lemma_enc_u64_n_len(vs: Seq<u64>)
    ensures
        spec_enc_u64_n(vs).len() == 8 * vs.len(),
    decreases vs.len(),
{
    broadcast use lemma_u64_le_len;

    if vs.len() > 0 {
        lemma_enc_u64_n_len(vs.drop_first());
    }
}

/// Decoding an encoded server address gives it back.
#[verifier::rlimit(50)]
pub proof fn lemma_addr_rt(a: ServerAddr, rest: Seq<u8>)
    ensures
        spec_dec_addr(spec_enc_addr(a) + rest) == Some(
            (a, spec_enc_addr(a).len() as int),
        ),
{
    broadcast use lemma_u64_le_len;

    reveal_with_fuel(spec_enc_u64_n, 10);
    let b = spec_enc_addr(a) + rest;
    assert(b[0] == spec_enc_addr(a)[0]);
    match a {
        ServerAddr::V4 { a: x0, b: x1, c: x2, d: x3 } => {
            let vs = seq![x0 as u64, x1 as u64, x2 as u64, x3 as u64];
            assert(spec_enc_u64_n(vs) =~= spec_u64_le(vs[0]) + (spec_u64_le(vs[1]) + (spec_u64_le(
                vs[2],
            ) + (spec_u64_le(vs[3]) + Seq::<u8>::empty()))));
            assert(b.skip(1) =~= spec_enc_u64_n(vs) + rest);
            lemma_u64_n_rt(vs, rest);
        },
        ServerAddr::V6 { g0, g1, g2, g3, g4, g5, g6, g7 } => {
            let vs = seq![
                g0 as u64,
                g1 as u64,
                g2 as u64,
                g3 as u64,
                g4 as u64,
                g5 as u64,
                g6 as u64,
                g7 as u64,
            ];
            assert(spec_enc_u64_n(vs) =~= spec_u64_le(vs[0]) + (spec_u64_le(vs[1]) + (spec_u64_le(
                vs[2],
            ) + (spec_u64_le(vs[3]) + (spec_u64_le(vs[4]) + (spec_u64_le(vs[5]) + (spec_u64_le(
                vs[6],
            ) + (spec_u64_le(vs[7]) + Seq::<u8>::empty()))))))));
            assert(b.skip(1) =~= spec_enc_u64_n(vs) + rest);
            lemma_u64_n_rt(vs, rest);
        },
    }
}

/// Appends a server address.
fn push_addr(out: &mut Vec<u8>, a: &ServerAddr)
    ensures
        final(out)@ == old(out)@ + spec_enc_addr(*a),
{
    match a {
        ServerAddr::V4 { a, b, c, d } => {
            out.push(0u8);
            push_u64(out, *a as u64);
            push_u64(out, *b as u64);
            push_u64(out, *c as u64);
            push_u64(out, *d as u64);
        },
        ServerAddr::V6 { g0, g1, g2, g3, g4, g5, g6, g7 } => {
            out.push(1u8);
            push_u64(out, *g0 as u64);
            push_u64(out, *g1 as u64);
            push_u64(out, *g2 as u64);
            push_u64(out, *g3 as u64);
            push_u64(out, *g4 as u64);
            push_u64(out, *g5 as u64);
            push_u64(out, *g6 as u64);
            push_u64(out, *g7 as u64);
        },
    }
    assert(final(out)@ =~= old(out)@ + spec_enc_addr(*a));
}

/// Reads `n` numbers in a row, as [`spec_dec_u64_n`] describes.
fn read_u64_n(b: &Vec<u8>, pos: usize, n: usize) -> (r: Option<(Vec<u64>, usize)>)
    requires
        pos <= b@.len(),
    ensures
        match spec_dec_u64_n(b@.skip(pos as int), n as nat) {
            Option::None => r is None,
            Option::Some((vs, k)) => r matches Some((w, p)) && w@ == vs && w@.len() == n && p
                == pos + k && pos <= p && pos + k <= b@.len(),
        },
{
    let mut out: Vec<u64> = Vec::new();
    let mut p = pos;
    let mut j: usize = 0;
    while j < n
        invariant
            j <= n,
            pos <= p <= b@.len(),
            out@.len() == j,
            spec_dec_u64_n(b@.skip(pos as int), n as nat) == (match spec_dec_u64_n(
                b@.skip(p as int),
                (n - j) as nat,
            ) {
                Option::None => None::<(Seq<u64>, int)>,
                Option::Some((vs, m)) => Some((out@ + vs, (p - pos) + m)),
            }),
        decreases n - j,
    {
        let (v, p2) = match read_u64(b, p) {
            Some(x) => x,
            None => {
                return None;
            },
        };
        proof {
            assert(b@.skip(p as int).skip(8) =~= b@.skip(p + 8));
        }
        let ghost old_out = out@;
        out.push(v);
        proof {
            assert forall|vs: Seq<u64>| old_out + (seq![v] + vs) =~= out@ + vs by {}
        }
        p = p2;
        j += 1;
    }
    proof {
        assert(out@ + Seq::<u64>::empty() =~= out@);
    }
    Some((out, p))
}

/// Reads a server address, as [`spec_dec_addr`] describes.
fn read_addr(b: &Vec<u8>, pos: usize) -> (r: Option<(ServerAddr, usize)>)
    requires
        pos <= b@.len(),
    ensures
        match spec_dec_addr(b@.skip(pos as int)) {
            Option::None => r is None,
            Option::Some((a, k)) => r matches Some((w, p)) && w == a && p == pos + k && pos <= p && pos + k <= b@.len(),
        },
{
    if pos >= b.len() {
        return None;
    }
    proof {
        assert(b@.skip(pos as int)[0] == b@[pos as int]);
        assert(b@.skip(pos as int).skip(1) =~= b@.skip(pos + 1));
    }
    let t = b[pos];
    if t == 0 {
        let (vs, p) = match read_u64_n(b, pos + 1, 4) {
            Some(x) => x,
            None => {
                return None;
            },
        };
        if vs[0] > 255 || vs[1] > 255 || vs[2] > 255 || vs[3] > 255 {
            return None;
        }
        Some(
            (
                ServerAddr::V4 {
                    a: vs[0] as u8,
                    b: vs[1] as u8,
                    c: vs[2] as u8,
                    d: vs[3] as u8,
                },
                p,
            ),
        )
    } else if t == 1 {
        let (vs, p) = match read_u64_n(b, pos + 1, 8) {
            Some(x) => x,
            None => {
                return None;
            },
        };
        if vs[0] > 65535 || vs[1] > 65535 || vs[2] > 65535 || vs[3] > 65535 || vs[4] > 65535
            || vs[5] > 65535 || vs[6] > 65535 || vs[7] > 65535 {
            return None;
        }
        Some(
            (
                ServerAddr::V6 {
                    g0: vs[0] as u16,
                    g1: vs[1] as u16,
                    g2: vs[2] as u16,
                    g3: vs[3] as u16,
                    g4: vs[4] as u16,
                    g5: vs[5] as u16,
                    g6: vs[6] as u16,
                    g7: vs[7] as u16,
                },
                p,
            ),
        )
    } else {
        None
    }
}

/// Whether a text is short enough to carry its length in the encoding.
pub open spec fn str_ok(s: Seq<char>) -> bool {
    s.len() <= usize::MAX
}

/// A rendered response as its text and mode.
pub open spec fn spec_enc_response(r: ResponseView) -> Seq<u8> {
    spec_enc_str(r.text) + spec_enc_mode(r.mode)
}

/// What the head of `b` holds for a rendered response.
pub open spec fn spec_dec_response(b: Seq<u8>) -> Option<(ResponseView, int)> {
    match spec_dec_str(b) {
        Option::None => None,
        Option::Some((text, k1)) => match spec_dec_mode(b.skip(k1)) {
            Option::None => None,
            Option::Some((mode, k2)) => Some((ResponseView { text, mode }, k1 + k2)),
        },
    }
}

/// Decoding an encoded rendered response gives it back.
pub proof fn lemma_response_rt(r: ResponseView, rest: Seq<u8>)
    requires
        str_ok(r.text),
    ensures
        spec_dec_response(spec_enc_response(r) + rest) == Some(
            (r, spec_enc_response(r).len() as int),
        ),
{
    broadcast use lemma_u64_le_len;

    let b = spec_enc_response(r) + rest;
    assert(b =~= spec_enc_str(r.text) + (spec_enc_mode(r.mode) + rest));
    lemma_str_rt(r.text, spec_enc_mode(r.mode) + rest);
    lemma_enc_chars_len(r.text);
    let k1 = spec_enc_str(r.text).len() as int;
    assert(b.skip(k1) =~= spec_enc_mode(r.mode) + rest);
    lemma_mode_rt(r.mode, rest);
}

/// Appends a rendered response.
fn push_response(out: &mut Vec<u8>, r: &Response)
    ensures
        final(out)@ == old(out)@ + spec_enc_response(r@),
{
    push_str(out, &r.text);
    push_mode(out, r.mode);
    assert(final(out)@ =~= old(out)@ + spec_enc_response(r@));
}

/// Reads a rendered response, as [`spec_dec_response`] describes.
fn read_response(b: &Vec<u8>, pos: usize) -> (r: Option<(Response, usize)>)
    requires
        pos <= b@.len(),
    ensures
        match spec_dec_response(b@.skip(pos as int)) {
            Option::None => r is None,
            Option::Some((v, k)) => r matches Some((w, p)) && w@ == v && p == pos + k && pos
                <= p && pos + k <= b@.len(),
        },
{
    let (text, p1) = match read_str(b, pos) {
        Some(x) => x,
        None => {
            return None;
        },
    };
    proof {
        assert(b@.skip(pos as int).skip(p1 - pos) =~= b@.skip(p1 as int));
    }
    let (mode, p2) = match read_mode(b, p1) {
        Some(x) => x,
        None => {
            return None;
        },
    };
    Some((Response { text, mode }, p2))
}

/// A recorded query result as a tag and its payload.
pub open spec fn spec_enc_rresult(r: ResponseResultView) -> Seq<u8> {
    match r {
        ResponseResultView::Answered { resp } => seq![0u8] + spec_enc_response(resp),
        ResponseResultView::QueryError { err } => seq![1u8] + spec_enc_str(err),
        ResponseResultView::ForbiddenRecursion { addr } => seq![2u8] + spec_enc_addr(addr),
        ResponseResultView::InvalidRequestIpAddr { addr } => seq![3u8] + spec_enc_str(addr),
    }
}

/// What the head of `b` holds for a recorded query result.
pub open spec fn spec_dec_rresult(b: Seq<u8>) -> Option<(ResponseResultView, int)> {
    if b.len() < 1 {
        None
    } else if b[0] == 0 {
        match spec_dec_response(b.skip(1)) {
            Option::None => None,
            Option::Some((resp, k)) => Some((ResponseResultView::Answered { resp }, 1 + k)),
        }
    } else if b[0] == 1 {
        match spec_dec_str(b.skip(1)) {
            Option::None => None,
            Option::Some((err, k)) => Some((ResponseResultView::QueryError { err }, 1 + k)),
        }
    } else if b[0] == 2 {
        match spec_dec_addr(b.skip(1)) {
            Option::None => None,
            Option::Some((addr, k)) => Some(
                (ResponseResultView::ForbiddenRecursion { addr }, 1 + k),
            ),
        }
    } else if b[0] == 3 {
        match spec_dec_str(b.skip(1)) {
            Option::None => None,
            Option::Some((addr, k)) => Some(
                (ResponseResultView::InvalidRequestIpAddr { addr }, 1 + k),
            ),
        }
    } else {
        None
    }
}

/// Whether a recorded query result can carry its texts.
pub open spec fn rresult_ok(r: ResponseResultView) -> bool {
    match r {
        ResponseResultView::Answered { resp } => str_ok(resp.text),
        ResponseResultView::QueryError { err } => str_ok(err),
        ResponseResultView::ForbiddenRecursion { .. } => true,
        ResponseResultView::InvalidRequestIpAddr { addr } => str_ok(addr),
    }
}

/// Decoding an encoded recorded query result gives it back.
#[verifier::rlimit(50)]
pub proof fn lemma_rresult_rt(r: ResponseResultView, rest: Seq<u8>)
    requires
        rresult_ok(r),
    ensures
        spec_dec_rresult(spec_enc_rresult(r) + rest) == Some(
            (r, spec_enc_rresult(r).len() as int),
        ),
{
    broadcast use lemma_u64_le_len;

    let b = spec_enc_rresult(r) + rest;
    assert(b[0] == spec_enc_rresult(r)[0]);
    match r {
        ResponseResultView::Answered { resp } => {
            assert(b.skip(1) =~= spec_enc_response(resp) + rest);
            lemma_response_rt(resp, rest);
        },
        ResponseResultView::QueryError { err } => {
            assert(b.skip(1) =~= spec_enc_str(err) + rest);
            lemma_str_rt(err, rest);
            lemma_enc_chars_len(err);
        },
        ResponseResultView::ForbiddenRecursion { addr } => {
            assert(b.skip(1) =~= spec_enc_addr(addr) + rest);
            lemma_addr_rt(addr, rest);
        },
        ResponseResultView::InvalidRequestIpAddr { addr } => {
            assert(b.skip(1) =~= spec_enc_str(addr) + rest);
            lemma_str_rt(addr, rest);
            lemma_enc_chars_len(addr);
        },
    }
}

/// Appends a recorded query result.
fn push_rresult(out: &mut Vec<u8>, r: &ResponseResult)
    ensures
        final(out)@ == old(out)@ + spec_enc_rresult(r@),
{
    match r {
        ResponseResult::Answered { resp } => {
            out.push(0u8);
            push_response(out, resp);
        },
        ResponseResult::QueryError { err } => {
            out.push(1u8);
            push_str(out, err);
        },
        ResponseResult::ForbiddenRecursion { addr } => {
            out.push(2u8);
            push_addr(out, addr);
        },
        ResponseResult::InvalidRequestIpAddr { addr } => {
            out.push(3u8);
            push_str(out, addr);
        },
    }
    assert(final(out)@ =~= old(out)@ + spec_enc_rresult(r@));
}

/// Reads a recorded query result, as [`spec_dec_rresult`] describes.
fn read_rresult(b: &Vec<u8>, pos: usize) -> (r: Option<(ResponseResult, usize)>)
    requires
        pos <= b@.len(),
    ensures
        match spec_dec_rresult(b@.skip(pos as int)) {
            Option::None => r is None,
            Option::Some((v, k)) => r matches Some((w, p)) && w@ == v && p == pos + k && pos
                <= p && pos + k <= b@.len(),
        },
{
    if pos >= b.len() {
        return None;
    }
    proof {
        assert(b@.skip(pos as int)[0] == b@[pos as int]);
        assert(b@.skip(pos as int).skip(1) =~= b@.skip(pos + 1));
    }
    let t = b[pos];
    if t == 0 {
        match read_response(b, pos + 1) {
            Some((resp, p)) => Some((ResponseResult::Answered { resp }, p)),
            None => None,
        }
    } else if t == 1 {
        match read_str(b, pos + 1) {
            Some((err, p)) => Some((ResponseResult::QueryError { err }, p)),
            None => None,
        }
    } else if t == 2 {
        match read_addr(b, pos + 1) {
            Some((addr, p)) => Some((ResponseResult::ForbiddenRecursion { addr }, p)),
            None => None,
        }
    } else if t == 3 {
        match read_str(b, pos + 1) {
            Some((addr, p)) => Some((ResponseResult::InvalidRequestIpAddr { addr }, p)),
            None => None,
        }
    } else {
        None
    }
}

/// A request as its server text, its name, and its record type.
pub open spec fn spec_enc_request(r: RequestView) -> Seq<u8> {
    spec_enc_str(r.server_ip) + spec_enc_str(r.name) + spec_enc_record_type(r.record_type)
}

/// What the head of `b` holds for a request.
pub open spec fn spec_dec_request(b: Seq<u8>) -> Option<(RequestView, int)> {
    match spec_dec_str(b) {
        Option::None => None,
        Option::Some((server_ip, k1)) => match spec_dec_str(b.skip(k1)) {
            Option::None => None,
            Option::Some((name, k2)) => match spec_dec_record_type(b.skip(k1 + k2)) {
                Option::None => None,
                Option::Some((record_type, k3)) => Some(
                    (RequestView { server_ip, name, record_type }, k1 + k2 + k3),
                ),
            },
        },
    }
}

/// Whether a request can carry its texts and writes its record type
/// canonically.
pub open spec fn request_ok(r: RequestView) -> bool {
    str_ok(r.server_ip) && str_ok(r.name) && r.record_type.wf()
}

/// Decoding an encoded request gives it back.
#[verifier::rlimit(50)]
pub proof fn lemma_request_rt(r: RequestView, rest: Seq<u8>)
    requires
        request_ok(r),
    ensures
        spec_dec_request(spec_enc_request(r) + rest) == Some(
            (r, spec_enc_request(r).len() as int),
        ),
{
    broadcast use lemma_u64_le_len;

    let b = spec_enc_request(r) + rest;
    let tail1 = spec_enc_str(r.name) + (spec_enc_record_type(r.record_type) + rest);
    assert(b =~= spec_enc_str(r.server_ip) + tail1);
    lemma_str_rt(r.server_ip, tail1);
    lemma_enc_chars_len(r.server_ip);
    let k1 = spec_enc_str(r.server_ip).len() as int;
    assert(b.skip(k1) =~= tail1);
    lemma_str_rt(r.name, spec_enc_record_type(r.record_type) + rest);
    lemma_enc_chars_len(r.name);
    let k2 = spec_enc_str(r.name).len() as int;
    assert(b.skip(k1 + k2) =~= spec_enc_record_type(r.record_type) + rest);
    lemma_record_type_rt(r.record_type, rest);
}

/// Appends a request.
fn push_request(out: &mut Vec<u8>, r: &Request)
    ensures
        final(out)@ == old(out)@ + spec_enc_request(r@),
{
    push_str(out, &r.server_ip);
    push_str(out, &r.name);
    push_record_type(out, r.record_type);
    assert(final(out)@ =~= old(out)@ + spec_enc_request(r@));
}

/// Reads a request, as [`spec_dec_request`] describes.
fn read_request(b: &Vec<u8>, pos: usize) -> (r: Option<(Request, usize)>)
    requires
        pos <= b@.len(),
    ensures
        match spec_dec_request(b@.skip(pos as int)) {
            Option::None => r is None,
            Option::Some((v, k)) => r matches Some((w, p)) && w@ == v && p == pos + k && pos
                <= p && pos + k <= b@.len(),
        },
{
    let (server_ip, p1) = match read_str(b, pos) {
        Some(x) => x,
        None => {
            return None;
        },
    };
    proof {
        assert(b@.skip(pos as int).skip(p1 - pos) =~= b@.skip(p1 as int));
    }
    let (name, p2) = match read_str(b, p1) {
        Some(x) => x,
        None => {
            return None;
        },
    };
    proof {
        assert(b@.skip(pos as int).skip(p2 - pos) =~= b@.skip(p2 as int));
    }
    let (record_type, p3) = match read_record_type(b, p2) {
        Some(x) => x,
        None => {
            return None;
        },
    };
    Some((Request { server_ip, name, record_type }, p3))
}

/// An event as a tag and its payload.
pub open spec fn spec_enc_event(e: EventView) -> Seq<u8> {
    match e {
        EventView::Request { request, response } => seq![0u8] + spec_enc_request(request)
            + spec_enc_rresult(response),
        EventView::SwitchOutputMode { new_mode } => seq![1u8] + spec_enc_mode(new_mode),
        EventView::SubmitAnswer { answer, status } => seq![2u8] + spec_enc_str(answer)
            + spec_enc_status(status),
    }
}

/// What the head of `b` holds for an event.
pub open spec fn spec_dec_event(b: Seq<u8>) -> Option<(EventView, int)> {
    if b.len() < 1 {
        None
    } else if b[0] == 0 {
        match spec_dec_request(b.skip(1)) {
            Option::None => None,
            Option::Some((request, k1)) => match spec_dec_rresult(b.skip(1 + k1)) {
                Option::None => None,
                Option::Some((response, k2)) => Some(
                    (EventView::Request { request, response }, 1 + k1 + k2),
                ),
            },
        }
    } else if b[0] == 1 {
        match spec_dec_mode(b.skip(1)) {
            Option::None => None,
            Option::Some((new_mode, k)) => Some((EventView::SwitchOutputMode { new_mode }, 1 + k)),
        }
    } else if b[0] == 2 {
        match spec_dec_str(b.skip(1)) {
            Option::None => None,
            Option::Some((answer, k1)) => match spec_dec_status(b.skip(1 + k1)) {
                Option::None => None,
                Option::Some((status, k2)) => Some(
                    (EventView::SubmitAnswer { answer, status }, 1 + k1 + k2),
                ),
            },
        }
    } else {
        None
    }
}

/// Whether an event can carry its texts and writes its record type
/// canonically.
pub open spec fn event_ok(e: EventView) -> bool {
    match e {
        EventView::Request { request, response } => request_ok(request) && rresult_ok(response),
        EventView::SwitchOutputMode { .. } => true,
        EventView::SubmitAnswer { answer, .. } => str_ok(answer),
    }
}

/// Decoding an encoded event gives it back.
#[verifier::rlimit(50)]
pub proof fn lemma_event_rt(e: EventView, rest: Seq<u8>)
    requires
        event_ok(e),
    ensures
        spec_dec_event(spec_enc_event(e) + rest) == Some((e, spec_enc_event(e).len() as int)),
{
    broadcast use lemma_u64_le_len;

    let b = spec_enc_event(e) + rest;
    assert(b[0] == spec_enc_event(e)[0]);
    match e {
        EventView::Request { request, response } => {
            let tail = spec_enc_rresult(response) + rest;
            assert(b.skip(1) =~= spec_enc_request(request) + tail);
            lemma_request_rt(request, tail);
            let k1 = spec_enc_request(request).len() as int;
            assert(b.skip(1 + k1) =~= tail);
            lemma_rresult_rt(response, rest);
        },
        EventView::SwitchOutputMode { new_mode } => {
            assert(b.skip(1) =~= spec_enc_mode(new_mode) + rest);
            lemma_mode_rt(new_mode, rest);
        },
        EventView::SubmitAnswer { answer, status } => {
            let tail = spec_enc_status(status) + rest;
            assert(b.skip(1) =~= spec_enc_str(answer) + tail);
            lemma_str_rt(answer, tail);
            lemma_enc_chars_len(answer);
            let k1 = spec_enc_str(answer).len() as int;
            assert(b.skip(1 + k1) =~= tail);
            lemma_status_rt(status, rest);
        },
    }
}

/// Appends an event.
fn push_event(out: &mut Vec<u8>, e: &Event)
    ensures
        final(out)@ == old(out)@ + spec_enc_event(e@),
{
    match e {
        Event::Request { request, response } => {
            out.push(0u8);
            push_request(out, request);
            push_rresult(out, response);
        },
        Event::SwitchOutputMode { new_mode } => {
            out.push(1u8);
            push_mode(out, *new_mode);
        },
        Event::SubmitAnswer { answer, status } => {
            out.push(2u8);
            push_str(out, answer);
            push_status(out, *status);
        },
    }
    assert(final(out)@ =~= old(out)@ + spec_enc_event(e@));
}

/// Reads an event, as [`spec_dec_event`] describes.
fn read_event(b: &Vec<u8>, pos: usize) -> (r: Option<(Event, usize)>)
    requires
        pos <= b@.len(),
    ensures
        match spec_dec_event(b@.skip(pos as int)) {
            Option::None => r is None,
            Option::Some((v, k)) => r matches Some((w, p)) && w@ == v && p == pos + k && pos
                <= p && pos + k <= b@.len(),
        },
{
    if pos >= b.len() {
        return None;
    }
    proof {
        assert(b@.skip(pos as int)[0] == b@[pos as int]);
        assert(b@.skip(pos as int).skip(1) =~= b@.skip(pos + 1));
    }
    let t = b[pos];
    if t == 0 {
        let (request, p1) = match read_request(b, pos + 1) {
            Some(x) => x,
            None => {
                return None;
            },
        };
        proof {
            assert(b@.skip(pos as int).skip(p1 - pos) =~= b@.skip(p1 as int));
        }
        let (response, p2) = match read_rresult(b, p1) {
            Some(x) => x,
            None => {
                return None;
            },
        };
        Some((Event::Request { request, response }, p2))
    } else if t == 1 {
        match read_mode(b, pos + 1) {
            Some((new_mode, p)) => Some((Event::SwitchOutputMode { new_mode }, p)),
            None => None,
        }
    } else if t == 2 {
        let (answer, p1) = match read_str(b, pos + 1) {
            Some(x) => x,
            None => {
                return None;
            },
        };
        proof {
            assert(b@.skip(pos as int).skip(p1 - pos) =~= b@.skip(p1 as int));
        }
        let (status, p2) = match read_status(b, p1) {
            Some(x) => x,
            None => {
                return None;
            },
        };
        Some((Event::SubmitAnswer { answer, status }, p2))
    } else {
        None
    }
}

/// A log entry as its timestamp and its event.
pub open spec fn spec_enc_entry(e: RequestLogEntryView) -> Seq<u8> {
    spec_enc_i64(e.when.millis) + spec_enc_event(e.what)
}

/// What the head of `b` holds for a log entry.
pub open spec fn spec_dec_entry(b: Seq<u8>) -> Option<(RequestLogEntryView, int)> {
    match spec_dec_i64(b) {
        Option::None => None,
        Option::Some((millis, k1)) => match spec_dec_event(b.skip(k1)) {
            Option::None => None,
            Option::Some((what, k2)) => Some(
                (RequestLogEntryView { when: Timestamp { millis }, what }, k1 + k2),
            ),
        },
    }
}

/// Whether a log entry can carry its texts.
pub open spec fn entry_ok(e: RequestLogEntryView) -> bool {
    event_ok(e.what)
}

/// Decoding an encoded log entry gives it back.
pub proof fn lemma_entry_rt(e: RequestLogEntryView, rest: Seq<u8>)
    requires
        entry_ok(e),
    ensures
        spec_dec_entry(spec_enc_entry(e) + rest) == Some((e, spec_enc_entry(e).len() as int)),
{
    broadcast use lemma_u64_le_len;

    let b = spec_enc_entry(e) + rest;
    let tail = spec_enc_event(e.what) + rest;
    assert(b =~= spec_enc_i64(e.when.millis) + tail);
    lemma_i64_rt(e.when.millis, tail);
    assert(b.skip(9) =~= tail);
    lemma_event_rt(e.what, rest);
}

/// Appends a log entry.
fn push_entry(out: &mut Vec<u8>, e: &RequestLogEntry)
    ensures
        final(out)@ == old(out)@ + spec_enc_entry(e@),
{
    push_i64(out, e.when.millis);
    push_event(out, &e.what);
    assert(final(out)@ =~= old(out)@ + spec_enc_entry(e@));
}

/// Reads a log entry, as [`spec_dec_entry`] describes.
fn read_entry(b: &Vec<u8>, pos: usize) -> (r: Option<(RequestLogEntry, usize)>)
    requires
        pos <= b@.len(),
    ensures
        match spec_dec_entry(b@.skip(pos as int)) {
            Option::None => r is None,
            Option::Some((v, k)) => r matches Some((w, p)) && w@ == v && p == pos + k && pos <= p
                && pos + k <= b@.len(),
        },
{
    let (millis, p1) = match read_i64(b, pos) {
        Some(x) => x,
        None => {
            return None;
        },
    };
    proof {
        assert(b@.skip(pos as int).skip(p1 - pos) =~= b@.skip(p1 as int));
    }
    let (what, p2) = match read_event(b, p1) {
        Some(x) => x,
        None => {
            return None;
        },
    };
    Some((RequestLogEntry { when: Timestamp { millis }, what }, p2))
}

/// A run of log entries, one after the other.
pub open spec fn spec_enc_entry_list(es: Seq<RequestLogEntryView>) -> Seq<u8>
    decreases es.len(),
{
    if es.len() == 0 {
        Seq::<u8>::empty()
    } else {
        spec_enc_entry(es[0]) + spec_enc_entry_list(es.drop_first())
    }
}

/// What the head of `b` holds for `n` log entries.
pub open spec fn spec_dec_entry_list(b: Seq<u8>, n: nat) -> Option<
    (Seq<RequestLogEntryView>, int),
>
    decreases n,
{
    if n == 0 {
        Some((Seq::<RequestLogEntryView>::empty(), 0))
    } else {
        match spec_dec_entry(b) {
            Option::None => None,
            Option::Some((e, k)) => match spec_dec_entry_list(b.skip(k), (n - 1) as nat) {
                Option::None => None,
                Option::Some((es, m)) => Some((seq![e] + es, k + m)),
            },
        }
    }
}

/// Whether every log entry of a run can carry its texts.
pub open spec fn entries_ok(es: Seq<RequestLogEntryView>) -> bool {
    forall|i: int| 0 <= i < es.len() ==> entry_ok(#[trigger] es[i])
}

/// Encoding one more log entry appends its bytes.
proof fn lemma_enc_entry_list_snoc(es: Seq<RequestLogEntryView>, e: RequestLogEntryView)
    ensures
        spec_enc_entry_list(es.push(e)) == spec_enc_entry_list(es) + spec_enc_entry(e),
    decreases es.len(),
{
    if es.len() == 0 {
        let one = es.push(e);
        assert(one[0] == e);
        assert(one.drop_first() =~= Seq::<RequestLogEntryView>::empty());
        assert(spec_enc_entry_list(one) == spec_enc_entry(one[0]) + spec_enc_entry_list(
            one.drop_first(),
        ));
        assert(spec_enc_entry_list(one.drop_first()) == Seq::<u8>::empty());
        assert(spec_enc_entry_list(es) == Seq::<u8>::empty());
        assert(spec_enc_entry(e) + Seq::<u8>::empty() =~= spec_enc_entry(e));
        assert(Seq::<u8>::empty() + spec_enc_entry(e) =~= spec_enc_entry(e));
    } else {
        assert(es.push(e)[0] == es[0]);
        assert(es.push(e).drop_first() =~= es.drop_first().push(e));
        lemma_enc_entry_list_snoc(es.drop_first(), e);
        assert(spec_enc_entry_list(es.push(e)) =~= spec_enc_entry_list(es) + spec_enc_entry(e));
    }
}

/// Decoding an encoded run of log entries gives it back.
pub proof fn lemma_entry_list_rt(es: Seq<RequestLogEntryView>, rest: Seq<u8>)
    requires
        entries_ok(es),
    ensures
        spec_dec_entry_list(spec_enc_entry_list(es) + rest, es.len()) == Some(
            (es, spec_enc_entry_list(es).len() as int),
        ),
    decreases es.len(),
{
    if es.len() > 0 {
        let b = spec_enc_entry_list(es) + rest;
        let tail = spec_enc_entry_list(es.drop_first()) + rest;
        assert(b =~= spec_enc_entry(es[0]) + tail);
        lemma_entry_rt(es[0], tail);
        let k = spec_enc_entry(es[0]).len() as int;
        assert(b.skip(k) =~= tail);
        assert(entries_ok(es.drop_first())) by {
            assert(forall|i: int|
                0 <= i < es.len() - 1 ==> es.drop_first()[i] == #[trigger] es[i + 1]);
        }
        lemma_entry_list_rt(es.drop_first(), rest);
        assert(seq![es[0]] + es.drop_first() =~= es);
    }
}

/// Appends a run of log entries.
fn push_entry_list(out: &mut Vec<u8>, es: &Vec<RequestLogEntry>)
    ensures
        final(out)@ == old(out)@ + spec_enc_entry_list(
            es@.map_values(|e: RequestLogEntry| e@),
        ),
{
    let ghost views = es@.map_values(|e: RequestLogEntry| e@);
    let ghost base = out@;
    let mut i: usize = 0;
    proof {
        assert(views.take(0) =~= Seq::<RequestLogEntryView>::empty());
        assert(base + Seq::<u8>::empty() =~= base);
    }
    while i < es.len()
        invariant
            i <= es@.len(),
            views == es@.map_values(|e: RequestLogEntry| e@),
            out@ == base + spec_enc_entry_list(views.take(i as int)),
        decreases es.len() - i,
    {
        push_entry(out, &es[i]);
        proof {
            assert(views[i as int] == es@[i as int]@);
            lemma_enc_entry_list_snoc(views.take(i as int), views[i as int]);
            assert(views.take(i + 1) =~= views.take(i as int).push(views[i as int]));
        }
        i += 1;
    }
    proof {
        assert(views.take(es@.len() as int) =~= views);
    }
}

/// Reads `n` log entries, as [`spec_dec_entry_list`] describes.
fn read_entry_list(b: &Vec<u8>, pos: usize, n: usize) -> (r: Option<
    (Vec<RequestLogEntry>, usize),
>)
    requires
        pos <= b@.len(),
    ensures
        match spec_dec_entry_list(b@.skip(pos as int), n as nat) {
            Option::None => r is None,
            Option::Some((es, k)) => r matches Some((w, p)) && w@.map_values(
                |e: RequestLogEntry| e@,
            ) == es && p == pos + k && pos <= p && pos + k <= b@.len(),
        },
{
    let mut out: Vec<RequestLogEntry> = Vec::new();
    let mut p = pos;
    let mut j: usize = 0;
    proof {
        assert(out@.map_values(|e: RequestLogEntry| e@) =~= Seq::<RequestLogEntryView>::empty());
    }
    while j < n
        invariant
            j <= n,
            pos <= p <= b@.len(),
            spec_dec_entry_list(b@.skip(pos as int), n as nat) == (match spec_dec_entry_list(
                b@.skip(p as int),
                (n - j) as nat,
            ) {
                Option::None => None::<(Seq<RequestLogEntryView>, int)>,
                Option::Some((es, m)) => Some(
                    (out@.map_values(|e: RequestLogEntry| e@) + es, (p - pos) + m),
                ),
            }),
        decreases n - j,
    {
        let (e, p2) = match read_entry(b, p) {
            Some(x) => x,
            None => {
                return None;
            },
        };
        proof {
            assert(b@.skip(p as int).skip(p2 - p) =~= b@.skip(p2 as int));
        }
        let ghost old_map = out@.map_values(|e: RequestLogEntry| e@);
        let ghost ev = e@;
        out.push(e);
        proof {
            assert(out@.map_values(|e: RequestLogEntry| e@) =~= old_map.push(ev));
            assert forall|es: Seq<RequestLogEntryView>|
                old_map + (seq![ev] + es) =~= old_map.push(ev) + es by {}
        }
        p = p2;
        j += 1;
    }
    proof {
        assert(out@.map_values(|e: RequestLogEntry| e@) + Seq::<RequestLogEntryView>::empty()
            =~= out@.map_values(|e: RequestLogEntry| e@));
    }
    Some((out, p))
}

/// A run of texts, one after the other.
pub open spec fn spec_enc_str_list(ss: Seq<Seq<char>>) -> Seq<u8>
    decreases ss.len(),
{
    if ss.len() == 0 {
        Seq::<u8>::empty()
    } else {
        spec_enc_str(ss[0]) + spec_enc_str_list(ss.drop_first())
    }
}

/// What the head of `b` holds for `n` texts.
pub open spec fn spec_dec_str_list(b: Seq<u8>, n: nat) -> Option<(Seq<Seq<char>>, int)>
    decreases n,
{
    if n == 0 {
        Some((Seq::<Seq<char>>::empty(), 0))
    } else {
        match spec_dec_str(b) {
            Option::None => None,
            Option::Some((cs, k)) => match spec_dec_str_list(b.skip(k), (n - 1) as nat) {
                Option::None => None,
                Option::Some((ss, m)) => Some((seq![cs] + ss, k + m)),
            },
        }
    }
}

/// Whether every text of a run can carry its length.
pub open spec fn strs_ok(ss: Seq<Seq<char>>) -> bool {
    forall|i: int| 0 <= i < ss.len() ==> str_ok(#[trigger] ss[i])
}

/// Encoding one more text appends its bytes.
proof fn lemma_enc_str_list_snoc(ss: Seq<Seq<char>>, c: Seq<char>)
    ensures
        spec_enc_str_list(ss.push(c)) == spec_enc_str_list(ss) + spec_enc_str(c),
    decreases ss.len(),
{
    if ss.len() == 0 {
        let one = ss.push(c);
        assert(one[0] == c);
        assert(one.drop_first() =~= Seq::<Seq<char>>::empty());
        assert(spec_enc_str_list(one) == spec_enc_str(one[0]) + spec_enc_str_list(
            one.drop_first(),
        ));
        assert(spec_enc_str_list(one.drop_first()) == Seq::<u8>::empty());
        assert(spec_enc_str_list(ss) == Seq::<u8>::empty());
        assert(spec_enc_str(c) + Seq::<u8>::empty() =~= spec_enc_str(c));
        assert(Seq::<u8>::empty() + spec_enc_str(c) =~= spec_enc_str(c));
    } else {
        assert(ss.push(c)[0] == ss[0]);
        assert(ss.push(c).drop_first() =~= ss.drop_first().push(c));
        lemma_enc_str_list_snoc(ss.drop_first(), c);
        assert(spec_enc_str_list(ss.push(c)) =~= spec_enc_str_list(ss) + spec_enc_str(c));
    }
}

/// Decoding an encoded run of texts gives it back.
pub proof fn lemma_str_list_rt(ss: Seq<Seq<char>>, rest: Seq<u8>)
    requires
        strs_ok(ss),
    ensures
        spec_dec_str_list(spec_enc_str_list(ss) + rest, ss.len()) == Some(
            (ss, spec_enc_str_list(ss).len() as int),
        ),
    decreases ss.len(),
{
    broadcast use lemma_u64_le_len;

    if ss.len() > 0 {
        let b = spec_enc_str_list(ss) + rest;
        let tail = spec_enc_str_list(ss.drop_first()) + rest;
        assert(b =~= spec_enc_str(ss[0]) + tail);
        lemma_str_rt(ss[0], tail);
        lemma_enc_chars_len(ss[0]);
        let k = spec_enc_str(ss[0]).len() as int;
        assert(b.skip(k) =~= tail);
        assert(strs_ok(ss.drop_first())) by {
            assert(forall|i: int|
                0 <= i < ss.len() - 1 ==> ss.drop_first()[i] == #[trigger] ss[i + 1]);
        }
        lemma_str_list_rt(ss.drop_first(), rest);
        assert(seq![ss[0]] + ss.drop_first() =~= ss);
    }
}

/// Appends a run of texts.
fn push_str_list(out: &mut Vec<u8>, ss: &Vec<String>)
    ensures
        final(out)@ == old(out)@ + spec_enc_str_list(ss@.map_values(|o: String| o@)),
{
    let ghost views = ss@.map_values(|o: String| o@);
    let ghost base = out@;
    let mut i: usize = 0;
    proof {
        assert(views.take(0) =~= Seq::<Seq<char>>::empty());
        assert(base + Seq::<u8>::empty() =~= base);
    }
    while i < ss.len()
        invariant
            i <= ss@.len(),
            views == ss@.map_values(|o: String| o@),
            out@ == base + spec_enc_str_list(views.take(i as int)),
        decreases ss.len() - i,
    {
        push_str(out, &ss[i]);
        proof {
            assert(views[i as int] == ss@[i as int]@);
            lemma_enc_str_list_snoc(views.take(i as int), views[i as int]);
            assert(views.take(i + 1) =~= views.take(i as int).push(views[i as int]));
        }
        i += 1;
    }
    proof {
        assert(views.take(ss@.len() as int) =~= views);
    }
}

/// Reads `n` texts, as [`spec_dec_str_list`] describes.
fn read_str_list(b: &Vec<u8>, pos: usize, n: usize) -> (r: Option<(Vec<String>, usize)>)
    requires
        pos <= b@.len(),
    ensures
        match spec_dec_str_list(b@.skip(pos as int), n as nat) {
            Option::None => r is None,
            Option::Some((ss, k)) => r matches Some((w, p)) && w@.map_values(|o: String| o@) == ss
                && p == pos + k && pos <= p && pos + k <= b@.len(),
        },
{
    let mut out: Vec<String> = Vec::new();
    let mut p = pos;
    let mut j: usize = 0;
    proof {
        assert(out@.map_values(|o: String| o@) =~= Seq::<Seq<char>>::empty());
    }
    while j < n
        invariant
            j <= n,
            pos <= p <= b@.len(),
            spec_dec_str_list(b@.skip(pos as int), n as nat) == (match spec_dec_str_list(
                b@.skip(p as int),
                (n - j) as nat,
            ) {
                Option::None => None::<(Seq<Seq<char>>, int)>,
                Option::Some((ss, m)) => Some(
                    (out@.map_values(|o: String| o@) + ss, (p - pos) + m),
                ),
            }),
        decreases n - j,
    {
        let (sx, p2) = match read_str(b, p) {
            Some(x) => x,
            None => {
                return None;
            },
        };
        proof {
            assert(b@.skip(p as int).skip(p2 - p) =~= b@.skip(p2 as int));
        }
        let ghost old_map = out@.map_values(|o: String| o@);
        let ghost sv = sx@;
        out.push(sx);
        proof {
            assert(out@.map_values(|o: String| o@) =~= old_map.push(sv));
            assert forall|ss: Seq<Seq<char>>| old_map + (seq![sv] + ss) =~= old_map.push(sv)
                + ss by {}
        }
        p = p2;
        j += 1;
    }
    proof {
        assert(out@.map_values(|o: String| o@) + Seq::<Seq<char>>::empty() =~= out@.map_values(
            |o: String| o@,
        ));
    }
    Some((out, p))
}

/// An expected answer as a tag and its payload.
pub open spec fn spec_enc_answer(a: AnswerView) -> Seq<u8> {
    match a {
        AnswerView::Preset { options } => seq![0u8] + spec_u64_le(options.len() as u64)
            + spec_enc_str_list(options),
        AnswerView::Derived { record_type, query } => seq![1u8] + spec_enc_record_type(record_type)
            + spec_enc_str(query),
    }
}

/// What the head of `b` holds for an expected answer.
pub open spec fn spec_dec_answer(b: Seq<u8>) -> Option<(AnswerView, int)> {
    if b.len() < 1 {
        None
    } else if b[0] == 0 {
        match spec_dec_u64(b.skip(1)) {
            Option::None => None,
            Option::Some((n, k1)) => if n <= usize::MAX as u64 {
                match spec_dec_str_list(b.skip(1 + k1), n as nat) {
                    Option::None => None,
                    Option::Some((options, k2)) => Some(
                        (AnswerView::Preset { options }, 1 + k1 + k2),
                    ),
                }
            } else {
                None
            },
        }
    } else if b[0] == 1 {
        match spec_dec_record_type(b.skip(1)) {
            Option::None => None,
            Option::Some((record_type, k1)) => match spec_dec_str(b.skip(1 + k1)) {
                Option::None => None,
                Option::Some((query, k2)) => Some(
                    (AnswerView::Derived { record_type, query }, 1 + k1 + k2),
                ),
            },
        }
    } else {
        None
    }
}

/// Whether an expected answer can carry its texts and writes its record type
/// canonically.
pub open spec fn answer_ok(a: AnswerView) -> bool {
    match a {
        AnswerView::Preset { options } => options.len() <= usize::MAX && strs_ok(options),
        AnswerView::Derived { record_type, query } => record_type.wf() && str_ok(query),
    }
}

/// Decoding an encoded expected answer gives it back.
pub proof fn lemma_answer_rt(a: AnswerView, rest: Seq<u8>)
    requires
        answer_ok(a),
    ensures
        spec_dec_answer(spec_enc_answer(a) + rest) == Some(
            (a, spec_enc_answer(a).len() as int),
        ),
{
    broadcast use lemma_u64_le_len;

    let b = spec_enc_answer(a) + rest;
    assert(b[0] == spec_enc_answer(a)[0]);
    match a {
        AnswerView::Preset { options } => {
            let tail = spec_enc_str_list(options) + rest;
            assert(b.skip(1) =~= spec_u64_le(options.len() as u64) + tail);
            lemma_u64_rt(options.len() as u64, tail);
            assert(b.skip(9) =~= tail);
            lemma_str_list_rt(options, rest);
        },
        AnswerView::Derived { record_type, query } => {
            let tail = spec_enc_str(query) + rest;
            assert(b.skip(1) =~= spec_enc_record_type(record_type) + tail);
            lemma_record_type_rt(record_type, tail);
            assert(b.skip(9) =~= tail);
            lemma_str_rt(query, rest);
            lemma_enc_chars_len(query);
        },
    }
}

/// Appends an expected answer.
fn push_answer(out: &mut Vec<u8>, a: &Answer)
    ensures
        final(out)@ == old(out)@ + spec_enc_answer(a@),
{
    match a {
        Answer::Preset { options } => {
            out.push(0u8);
            push_u64(out, options.len() as u64);
            push_str_list(out, options);
        },
        Answer::Derived { record_type, query } => {
            out.push(1u8);
            push_record_type(out, *record_type);
            push_str(out, query);
        },
    }
    assert(final(out)@ =~= old(out)@ + spec_enc_answer(a@));
}

/// Reads an expected answer, as [`spec_dec_answer`] describes.
fn read_answer(b: &Vec<u8>, pos: usize) -> (r: Option<(Answer, usize)>)
    requires
        pos <= b@.len(),
    ensures
        match spec_dec_answer(b@.skip(pos as int)) {
            Option::None => r is None,
            Option::Some((v, k)) => r matches Some((w, p)) && w@ == v && p == pos + k && pos <= p
                && pos + k <= b@.len(),
        },
{
    if pos >= b.len() {
        return None;
    }
    proof {
        assert(b@.skip(pos as int)[0] == b@[pos as int]);
        assert(b@.skip(pos as int).skip(1) =~= b@.skip(pos + 1));
    }
    let t = b[pos];
    if t == 0 {
        let (n, p1) = match read_u64(b, pos + 1) {
            Some(x) => x,
            None => {
                return None;
            },
        };
        if n > usize::MAX as u64 {
            return None;
        }
        proof {
            assert(b@.skip(pos as int).skip(p1 - pos) =~= b@.skip(p1 as int));
        }
        let (options, p2) = match read_str_list(b, p1, n as usize) {
            Some(x) => x,
            None => {
                return None;
            },
        };
        Some((Answer::Preset { options }, p2))
    } else if t == 1 {
        let (record_type, p1) = match read_record_type(b, pos + 1) {
            Some(x) => x,
            None => {
                return None;
            },
        };
        proof {
            assert(b@.skip(pos as int).skip(p1 - pos) =~= b@.skip(p1 as int));
        }
        let (query, p2) = match read_str(b, p1) {
            Some(x) => x,
            None => {
                return None;
            },
        };
        Some((Answer::Derived { record_type, query }, p2))
    } else {
        None
    }
}

/// A question as its prompt and its expected answer.
pub open spec fn spec_enc_question(q: QuestionView) -> Seq<u8> {
    spec_enc_str(q.text) + spec_enc_answer(q.answer)
}

/// What the head of `b` holds for a question.
pub open spec fn spec_dec_question(b: Seq<u8>) -> Option<(QuestionView, int)> {
    match spec_dec_str(b) {
        Option::None => None,
        Option::Some((text, k1)) => match spec_dec_answer(b.skip(k1)) {
            Option::None => None,
            Option::Some((answer, k2)) => Some((QuestionView { text, answer }, k1 + k2)),
        },
    }
}

/// Whether a question can carry its texts.
pub open spec fn question_ok(q: QuestionView) -> bool {
    str_ok(q.text) && answer_ok(q.answer)
}

/// Decoding an encoded question gives it back.
pub proof fn lemma_question_rt(q: QuestionView, rest: Seq<u8>)
    requires
        question_ok(q),
    ensures
        spec_dec_question(spec_enc_question(q) + rest) == Some(
            (q, spec_enc_question(q).len() as int),
        ),
{
    broadcast use lemma_u64_le_len;

    let b = spec_enc_question(q) + rest;
    let tail = spec_enc_answer(q.answer) + rest;
    assert(b =~= spec_enc_str(q.text) + tail);
    lemma_str_rt(q.text, tail);
    lemma_enc_chars_len(q.text);
    let k1 = spec_enc_str(q.text).len() as int;
    assert(b.skip(k1) =~= tail);
    lemma_answer_rt(q.answer, rest);
}

/// Appends a question.
fn push_question(out: &mut Vec<u8>, q: &Question)
    ensures
        final(out)@ == old(out)@ + spec_enc_question(q@),
{
    push_str(out, &q.text);
    push_answer(out, &q.answer);
    assert(final(out)@ =~= old(out)@ + spec_enc_question(q@));
}

/// Reads a question, as [`spec_dec_question`] describes.
fn read_question(b: &Vec<u8>, pos: usize) -> (r: Option<(Question, usize)>)
    requires
        pos <= b@.len(),
    ensures
        match spec_dec_question(b@.skip(pos as int)) {
            Option::None => r is None,
            Option::Some((v, k)) => r matches Some((w, p)) && w@ == v && p == pos + k && pos <= p
                && pos + k <= b@.len(),
        },
{
    let (text, p1) = match read_str(b, pos) {
        Some(x) => x,
        None => {
            return None;
        },
    };
    proof {
        assert(b@.skip(pos as int).skip(p1 - pos) =~= b@.skip(p1 as int));
    }
    let (answer, p2) = match read_answer(b, p1) {
        Some(x) => x,
        None => {
            return None;
        },
    };
    Some((Question { text, answer }, p2))
}

/// A whole session: how many log entries it has, the entries themselves, the
/// output mode, the question, the attempt budget, and whether it still
/// accepts answers.
pub open spec fn spec_enc_session(v: SessionView) -> Seq<u8> {
    spec_u64_le(v.user_requests.len() as u64) + spec_enc_entry_list(v.user_requests)
        + spec_enc_mode(v.current_output_mode) + spec_enc_question(v.question) + spec_u64_le(
        v.answers_remaining as u64,
    ) + spec_enc_bool(v.can_answer)
}

/// What the head of `b` holds for a whole session.
pub open spec fn spec_dec_session(b: Seq<u8>) -> Option<(SessionView, int)> {
    match spec_dec_u64(b) {
        Option::None => None,
        Option::Some((n, k0)) => if n <= usize::MAX as u64 {
            match spec_dec_entry_list(b.skip(k0), n as nat) {
                Option::None => None,
                Option::Some((user_requests, k1)) => match spec_dec_mode(b.skip(k0 + k1)) {
                    Option::None => None,
                    Option::Some((current_output_mode, k2)) => match spec_dec_question(
                        b.skip(k0 + k1 + k2),
                    ) {
                        Option::None => None,
                        Option::Some((question, k3)) => match spec_dec_u64(
                            b.skip(k0 + k1 + k2 + k3),
                        ) {
                            Option::None => None,
                            Option::Some((budget, k4)) => if budget <= u32::MAX as u64 {
                                match spec_dec_bool(b.skip(k0 + k1 + k2 + k3 + k4)) {
                                    Option::None => None,
                                    Option::Some((can_answer, k5)) => Some(
                                        (
                                            SessionView {
                                                user_requests,
                                                current_output_mode,
                                                question,
                                                answers_remaining: budget as u32,
                                                can_answer,
                                            },
                                            k0 + k1 + k2 + k3 + k4 + k5,
                                        ),
                                    ),
                                }
                            } else {
                                None
                            },
                        },
                    },
                },
            }
        } else {
            None
        },
    }
}

/// Whether a session can carry its log and its texts in the persisted form.
/// Every session assembled from machine-sized values satisfies this; it rules
/// out only abstract values too large for any machine.
pub open spec fn session_ok(v: SessionView) -> bool {
    v.user_requests.len() <= usize::MAX && entries_ok(v.user_requests) && question_ok(v.question)
}

/// What the persisted bytes of a session hold: a whole session, with nothing
/// left over.
pub open spec fn spec_parse_session(b: Seq<u8>) -> Option<SessionView> {
    match spec_dec_session(b) {
        Option::None => None,
        Option::Some((v, k)) => if k == b.len() {
            Some(v)
        } else {
            None
        },
    }
}

/// Decoding an encoded session gives back every field exactly. This is the
/// round-trip law of the persisted form: saving a session and loading it
/// yields a value observably equal to the original in every field.
pub proof fn theorem_session_round_trip(v: SessionView)
    requires
        session_ok(v),
    ensures
        spec_parse_session(spec_enc_session(v)) == Some(v),
{
    broadcast use lemma_u64_le_len;

    let whole = spec_enc_session(v);
    lemma_session_rt_offsets(v, Seq::<u8>::empty());
    assert(whole + Seq::<u8>::empty() =~= whole);
}

/// Decoding an encoded session followed by anything gives it back and
/// consumes exactly its bytes.
#[verifier::rlimit(100)]
proof fn lemma_session_rt_offsets(v: SessionView, rest: Seq<u8>)
    requires
        session_ok(v),
    ensures
        spec_dec_session(spec_enc_session(v) + rest) == Some(
            (v, spec_enc_session(v).len() as int),
        ),
{
    broadcast use lemma_u64_le_len;

    let b = spec_enc_session(v) + rest;
    let t1 = spec_enc_entry_list(v.user_requests) + (spec_enc_mode(v.current_output_mode) + (
    spec_enc_question(v.question) + (spec_u64_le(v.answers_remaining as u64) + (spec_enc_bool(
        v.can_answer,
    ) + rest))));
    assert(b =~= spec_u64_le(v.user_requests.len() as u64) + t1);
    lemma_u64_rt(v.user_requests.len() as u64, t1);
    assert(b.skip(8) =~= t1);
    let t2 = spec_enc_mode(v.current_output_mode) + (spec_enc_question(v.question) + (spec_u64_le(
        v.answers_remaining as u64,
    ) + (spec_enc_bool(v.can_answer) + rest)));
    lemma_entry_list_rt(v.user_requests, t2);
    let k1 = spec_enc_entry_list(v.user_requests).len() as int;
    assert(t1 =~= spec_enc_entry_list(v.user_requests) + t2);
    assert(b.skip(8 + k1) =~= t2);
    let t3 = spec_enc_question(v.question) + (spec_u64_le(v.answers_remaining as u64) + (
    spec_enc_bool(v.can_answer) + rest));
    lemma_mode_rt(v.current_output_mode, t3);
    assert(b.skip(8 + k1 + 1) =~= t3);
    let t4 = spec_u64_le(v.answers_remaining as u64) + (spec_enc_bool(v.can_answer) + rest);
    lemma_question_rt(v.question, t4);
    let k3 = spec_enc_question(v.question).len() as int;
    assert(b.skip(8 + k1 + 1 + k3) =~= t4);
    let t5 = spec_enc_bool(v.can_answer) + rest;
    lemma_u64_rt(v.answers_remaining as u64, t5);
    assert(b.skip(8 + k1 + 1 + k3 + 8) =~= t5);
    lemma_bool_rt(v.can_answer, rest);
}

/// The persisted form of a session, ready for a durable write.
pub fn encode_session(s: &Session) -> (out: Vec<u8>)
    ensures
        out@ == spec_enc_session(s@),
{
    let mut out: Vec<u8> = Vec::new();
    push_u64(&mut out, s.user_requests.len() as u64);
    push_entry_list(&mut out, &s.user_requests);
    push_mode(&mut out, s.current_output_mode);
    push_question(&mut out, &s.question);
    push_u64(&mut out, s.answers_remaining as u64);
    push_bool(&mut out, s.can_answer);
    assert(out@ =~= spec_enc_session(s@));
    out
}

/// Reads a session back from its persisted form, exactly as
/// [`spec_parse_session`] describes: every field as it was written, and
/// nothing accepted beyond or short of one whole session.
pub fn decode_session(b: &Vec<u8>) -> (r: Option<Session>)
    ensures
        match spec_parse_session(b@) {
            Option::None => r is None,
            Option::Some(v) => r matches Some(s) && s@ == v,
        },
{
    proof {
        assert(b@.skip(0) =~= b@);
    }
    let (n, p0) = match read_u64(b, 0) {
        Some(x) => x,
        None => {
            return None;
        },
    };
    if n > usize::MAX as u64 {
        return None;
    }
    proof {
        assert(b@.skip(0).skip(p0 as int) =~= b@.skip(p0 as int));
    }
    let (user_requests, p1) = match read_entry_list(b, p0, n as usize) {
        Some(x) => x,
        None => {
            return None;
        },
    };
    proof {
        assert(b@.skip(0).skip(p1 as int) =~= b@.skip(p1 as int));
    }
    let (current_output_mode, p2) = match read_mode(b, p1) {
        Some(x) => x,
        None => {
            return None;
        },
    };
    proof {
        assert(b@.skip(0).skip(p2 as int) =~= b@.skip(p2 as int));
    }
    let (question, p3) = match read_question(b, p2) {
        Some(x) => x,
        None => {
            return None;
        },
    };
    proof {
        assert(b@.skip(0).skip(p3 as int) =~= b@.skip(p3 as int));
    }
    let (budget, p4) = match read_u64(b, p3) {
        Some(x) => x,
        None => {
            return None;
        },
    };
    if budget > u32::MAX as u64 {
        return None;
    }
    proof {
        assert(b@.skip(0).skip(p4 as int) =~= b@.skip(p4 as int));
    }
    let (can_answer, p5) = match read_bool(b, p4) {
        Some(x) => x,
        None => {
            return None;
        },
    };
    if p5 != b.len() {
        return None;
    }
    let s = Session {
        user_requests,
        current_output_mode,
        question,
        answers_remaining: budget as u32,
        can_answer,
    };
    assert(s@ =~~= spec_parse_session(b@)->Some_0);
    Some(s)
}

} // verus!
